//! The piece arena and the circular chain that links its entries.
//!
//! Pieces live in a growable arena and refer to each other by index. Entry
//! zero is the sentinel: it is never part of the text and anchors both ends
//! of the doubly linked cycle. The visible pieces, in text order, are the
//! entries met on the way from the sentinel's successor back to the sentinel.

use vstd::prelude::*;
use crate::span::{Interval, Span};

verus! {

/// Arena index of the sentinel.
pub(crate) const SENTINEL: u32 = 0;

/// A piece of the text, identified by its index in the arena. The index
/// stays valid forever: pieces are never removed from the arena.
#[derive(Debug, Copy, Clone, PartialEq, Eq, Structural)]
pub struct Piece(pub(crate) u32);

impl Piece {
    /// The arena index of the piece.
    pub closed spec fn index(self) -> nat {
        self.0 as nat
    }

    /// The sentinel: the one arena entry that is never part of a text. It
    /// marks the end of every text.
    pub open(crate) spec fn sentinel() -> Piece {
        Piece(SENTINEL)
    }
}

/// A piece is its arena index, and the sentinel is the piece with index
/// zero.
pub proof fn lemma_piece_index(p: Piece, q: Piece)
    ensures
        p == q <==> p.index() == q.index(),
        p == Piece::sentinel() <==> p.index() == 0,
        p.index() <= u32::MAX,
{
}

/// The piece at position `k` of `chain`, and the sentinel beyond its end.
pub open spec fn piece_or_sentinel(chain: Seq<Piece>, k: int) -> Piece {
    if 0 <= k < chain.len() {
        chain[k]
    } else {
        Piece::sentinel()
    }
}

/// The pieces that were given arena indices `first`, `first + 1`, ... by
/// `count` allocations in a row.
pub open(crate) spec fn fresh_pieces(first: nat, count: int) -> Seq<Piece> {
    Seq::new(count as nat, |i: int| Piece((first + i) as u32))
}

/// Fresh pieces have consecutive arena indices.
pub proof fn lemma_fresh_pieces(first: nat, count: int)
    requires
        0 <= count,
        first + count <= 0x1_0000_0000,
    ensures
        fresh_pieces(first, count).len() == count,
        forall|i: int|
            0 <= i < count ==> (#[trigger] fresh_pieces(first, count)[i]).index() == first + i,
{
}

/// The pieces with the arena indices of `order`.
pub(crate) open spec fn pieces_of(order: Seq<int>) -> Seq<Piece> {
    Seq::new(order.len(), |k: int| Piece(order[k] as u32))
}

/// What the arena stores for a piece.
#[derive(Debug, Copy, Clone)]
pub(crate) struct PieceData {
    /// The bytes of the backing buffer that the piece covers.
    pub(crate) span: Span,
    pub(crate) prev: Piece,
    pub(crate) next: Piece,
}

/// Arena index at position `k` of the cycle that visits the sentinel and
/// then the pieces of `order`: the sentinel stands at position zero and
/// again behind the last piece.
pub(crate) open spec fn ring_at(order: Seq<int>, k: int) -> int {
    if 1 <= k <= order.len() {
        order[k - 1]
    } else {
        0
    }
}

/// The entries at positions `k` and `k + 1` of the cycle point at each other.
pub(crate) open spec fn link_ok(arena: Seq<PieceData>, order: Seq<int>, k: int) -> bool {
    &&& arena[ring_at(order, k)].next.0 == ring_at(order, k + 1)
    &&& arena[ring_at(order, k + 1)].prev.0 == ring_at(order, k)
}

/// `order` lists distinct entries of the arena other than the sentinel.
pub(crate) open spec fn distinct_pieces(order: Seq<int>, limit: int) -> bool {
    &&& forall|k: int| 0 <= k < order.len() ==> 1 <= #[trigger] order[k] < limit
    &&& forall|i: int, j: int| 0 <= i < j < order.len() ==> order[i] != order[j]
}

/// The arena links the sentinel and the pieces of `order` into a doubly
/// linked cycle, in that order.
pub(crate) open spec fn linked(arena: Seq<PieceData>, order: Seq<int>) -> bool {
    &&& arena.len() >= 1
    &&& distinct_pieces(order, arena.len() as int)
    &&& forall|k: int| 0 <= k <= order.len() ==> #[trigger] link_ok(arena, order, k)
}

/// The spans of the pieces of `order`, in that order.
pub(crate) open spec fn spans_of(arena: Seq<PieceData>, order: Seq<int>) -> Seq<Interval> {
    Seq::new(order.len(), |k: int| arena[order[k]].span@)
}

/// The arena after linking entry `a` to entry `b`: `a`'s successor becomes
/// `b`, then `b`'s predecessor becomes `a`.
#[verifier::opaque]
pub(crate) open spec fn link_arena(arena: Seq<PieceData>, a: Piece, b: Piece) -> Seq<PieceData> {
    let first = arena.update(
        a.0 as int,
        PieceData { span: arena[a.0 as int].span, prev: arena[a.0 as int].prev, next: b },
    );
    first.update(
        b.0 as int,
        PieceData { span: first[b.0 as int].span, prev: a, next: first[b.0 as int].next },
    )
}

/// Two consecutive arena indices, starting at `a`.
pub(crate) open spec fn two_from(a: int) -> Seq<int> {
    seq![a, a + 1]
}

/// Three consecutive arena indices, starting at `a`.
pub(crate) open spec fn three_from(a: int) -> Seq<int> {
    seq![a, a + 1, a + 2]
}

/// The arena entry of a piece that is linked to nothing yet.
pub(crate) open spec fn unlinked(span: Span) -> PieceData {
    PieceData { span: span, prev: Piece(SENTINEL), next: Piece(SENTINEL) }
}

/// Linking changes one successor and one predecessor, and nothing else.
pub(crate) proof fn lemma_link_arena(arena: Seq<PieceData>, a: Piece, b: Piece)
    requires
        a.0 < arena.len(),
        b.0 < arena.len(),
    ensures
        link_arena(arena, a, b).len() == arena.len(),
        link_arena(arena, a, b)[a.0 as int].next == b,
        link_arena(arena, a, b)[b.0 as int].prev == a,
        forall|x: int|
            0 <= x < arena.len() ==> (#[trigger] link_arena(arena, a, b)[x]).span == arena[x].span,
        forall|x: int|
            0 <= x < arena.len() && x != a.0 ==> (#[trigger] link_arena(arena, a, b)[x]).next
                == arena[x].next,
        forall|x: int|
            0 <= x < arena.len() && x != b.0 ==> (#[trigger] link_arena(arena, a, b)[x]).prev
                == arena[x].prev,
{
    reveal(link_arena);
}

/// The links of an arena admit one chain only.
pub(crate) proof fn lemma_linked_unique(arena: Seq<PieceData>, o1: Seq<int>, o2: Seq<int>)
    requires
        linked(arena, o1),
        linked(arena, o2),
    ensures
        o1 == o2,
{
    // the shorter chain is back at the sentinel where the longer one still
    // holds a piece
    if o1.len() < o2.len() {
        lemma_ring_agree(arena, o1, o2, o1.len() as int);
        assert(link_ok(arena, o1, o1.len() as int));
        assert(link_ok(arena, o2, o1.len() as int));
    }
    if o2.len() < o1.len() {
        lemma_ring_agree(arena, o1, o2, o2.len() as int);
        assert(link_ok(arena, o1, o2.len() as int));
        assert(link_ok(arena, o2, o2.len() as int));
    }
    assert forall|k: int| 0 <= k < o1.len() implies o1[k] == o2[k] by {
        lemma_ring_agree(arena, o1, o2, k + 1);
    }
}

/// Two chains of one arena agree at every position that both have.
proof fn lemma_ring_agree(arena: Seq<PieceData>, o1: Seq<int>, o2: Seq<int>, k: int)
    requires
        linked(arena, o1),
        linked(arena, o2),
        0 <= k <= o1.len(),
        0 <= k <= o2.len(),
    ensures
        ring_at(o1, k) == ring_at(o2, k),
    decreases k,
{
    if k > 0 {
        lemma_ring_agree(arena, o1, o2, k - 1);
        assert(link_ok(arena, o1, k - 1));
        assert(link_ok(arena, o2, k - 1));
    }
}

/// Replacing a run of the chain by fresh pieces. The pieces at positions
/// `i..j` of `order` leave the chain and the pieces of `mid` take their
/// place. This holds where the new arena keeps every link outside the cut
/// and links the cut's neighbours and the fresh pieces to each other.
pub(crate) proof fn lemma_splice(
    arena: Seq<PieceData>,
    order: Seq<int>,
    i: int,
    j: int,
    after: Seq<PieceData>,
    mid: Seq<int>,
)
    requires
        linked(arena, order),
        0 <= i <= j <= order.len(),
        arena.len() <= after.len(),
        forall|x: int|
            0 <= x < arena.len() ==> (#[trigger] after[x]).span == arena[x].span,
        forall|x: int|
            0 <= x < arena.len() && x != ring_at(order, i) ==> (#[trigger] after[x]).next
                == arena[x].next,
        forall|x: int|
            0 <= x < arena.len() && x != ring_at(order, j + 1) ==> (#[trigger] after[x]).prev
                == arena[x].prev,
        forall|m: int| 0 <= m < mid.len() ==> arena.len() <= #[trigger] mid[m] < after.len(),
        forall|a: int, b: int| 0 <= a < b < mid.len() ==> mid[a] != mid[b],
        forall|k: int|
            i <= k <= i + mid.len() ==> #[trigger] link_ok(
                after,
                order.take(i) + mid + order.skip(j),
                k,
            ),
    ensures
        linked(after, order.take(i) + mid + order.skip(j)),
        spans_of(after, order.take(i) + mid + order.skip(j)) == spans_of(arena, order).take(i)
            + spans_of(after, mid) + spans_of(arena, order).skip(j),
{
    let m = mid.len() as int;
    let fresh = order.take(i) + mid + order.skip(j);
    let shift = m - (j - i);
    assert forall|k: int| 0 <= k < fresh.len() implies 1 <= #[trigger] fresh[k] < after.len() by {
    }
    assert forall|a: int, b: int| 0 <= a < b < fresh.len() implies fresh[a] != fresh[b] by {
    }
    assert forall|k: int| 0 <= k <= fresh.len() implies #[trigger] link_ok(after, fresh, k) by {
        if k < i {
            // both ends lie before the cut
            assert(link_ok(arena, order, k));
        } else if k > i + m {
            // both ends lie behind the cut
            assert(link_ok(arena, order, k - shift));
        }
    }
    assert(spans_of(after, fresh) =~= spans_of(arena, order).take(i) + spans_of(after, mid)
        + spans_of(arena, order).skip(j)) by {
        assert forall|k: int| 0 <= k < fresh.len() implies spans_of(after, fresh)[k] == (spans_of(
            arena,
            order,
        ).take(i) + spans_of(after, mid) + spans_of(arena, order).skip(j))[k] by {
        }
    }
}

/// The pieces at positions `i..j` of the chain leave it when the piece in
/// front of them is linked to the piece behind them.
pub(crate) proof fn lemma_link_none(
    arena: Seq<PieceData>,
    order: Seq<int>,
    i: int,
    j: int,
    after: Seq<PieceData>,
)
    requires
        linked(arena, order),
        0 <= i <= j <= order.len(),
        after == link_arena(
            arena,
            Piece(ring_at(order, i) as u32),
            Piece(ring_at(order, j + 1) as u32),
        ),
    ensures
        after.len() == arena.len(),
        after[0].span == arena[0].span,
        linked(after, order.take(i) + order.skip(j)),
        spans_of(after, order.take(i) + order.skip(j)) == spans_of(arena, order).take(i)
            + spans_of(arena, order).skip(j),
{
    let front = Piece(ring_at(order, i) as u32);
    let back = Piece(ring_at(order, j + 1) as u32);
    let mid = Seq::<int>::empty();
    lemma_ring_in_arena(arena, order, i);
    lemma_ring_in_arena(arena, order, j + 1);
    lemma_link_arena(arena, front, back);
    lemma_splice(arena, order, i, j, after, mid);
}

/// A new piece linked between the piece in front of position `i` and the
/// piece at position `j` takes the place of the pieces at positions `i..j`.
/// The link to its successor is made first.
pub(crate) proof fn lemma_link_one(
    arena: Seq<PieceData>,
    order: Seq<int>,
    i: int,
    j: int,
    span: Span,
    after: Seq<PieceData>,
)
    requires
        linked(arena, order),
        0 <= i <= j <= order.len(),
        arena.len() <= u32::MAX,
        ({
            let p = Piece(arena.len() as u32);
            let front = Piece(ring_at(order, i) as u32);
            let back = Piece(ring_at(order, j + 1) as u32);
            after == link_arena(link_arena(arena.push(unlinked(span)), p, back), front, p)
        }),
    ensures
        after.len() == arena.len() + 1,
        after[0].span == arena[0].span,
        linked(after, order.take(i) + seq![arena.len() as int] + order.skip(j)),
        spans_of(after, order.take(i) + seq![arena.len() as int] + order.skip(j)) == spans_of(
            arena,
            order,
        ).take(i) + seq![span@] + spans_of(arena, order).skip(j),
{
    let p = Piece(arena.len() as u32);
    let front = Piece(ring_at(order, i) as u32);
    let back = Piece(ring_at(order, j + 1) as u32);
    let a1 = arena.push(unlinked(span));
    let a2 = link_arena(a1, p, back);
    let mid = seq![arena.len() as int];
    lemma_link_arena(a1, p, back);
    lemma_link_arena(a2, front, p);
    assert forall|x: int| 0 <= x < arena.len() implies (#[trigger] after[x]).span
        == arena[x].span by {
    }
    assert forall|x: int| 0 <= x < arena.len() && x != ring_at(order, i) implies (
    #[trigger] after[x]).next == arena[x].next by {
    }
    assert forall|x: int| 0 <= x < arena.len() && x != ring_at(order, j + 1) implies (
    #[trigger] after[x]).prev == arena[x].prev by {
    }
    lemma_splice(arena, order, i, j, after, mid);
}

/// As `lemma_link_one`, with the link from the predecessor made first.
pub(crate) proof fn lemma_link_one_behind(
    arena: Seq<PieceData>,
    order: Seq<int>,
    i: int,
    j: int,
    span: Span,
    after: Seq<PieceData>,
)
    requires
        linked(arena, order),
        0 <= i <= j <= order.len(),
        arena.len() <= u32::MAX,
        ({
            let p = Piece(arena.len() as u32);
            let front = Piece(ring_at(order, i) as u32);
            let back = Piece(ring_at(order, j + 1) as u32);
            after == link_arena(link_arena(arena.push(unlinked(span)), front, p), p, back)
        }),
    ensures
        after.len() == arena.len() + 1,
        after[0].span == arena[0].span,
        linked(after, order.take(i) + seq![arena.len() as int] + order.skip(j)),
        spans_of(after, order.take(i) + seq![arena.len() as int] + order.skip(j)) == spans_of(
            arena,
            order,
        ).take(i) + seq![span@] + spans_of(arena, order).skip(j),
{
    let p = Piece(arena.len() as u32);
    let front = Piece(ring_at(order, i) as u32);
    let back = Piece(ring_at(order, j + 1) as u32);
    let a1 = arena.push(unlinked(span));
    let other = link_arena(link_arena(a1, p, back), front, p);
    assert(after =~= other) by {
        reveal(link_arena);
    }
    lemma_link_one(arena, order, i, j, span, other);
}

/// Two new pieces linked between the piece in front of position `i` and
/// the piece at position `j` take the place of the pieces at positions
/// `i..j`.
pub(crate) proof fn lemma_link_two(
    arena: Seq<PieceData>,
    order: Seq<int>,
    i: int,
    j: int,
    spans: (Span, Span),
    after: Seq<PieceData>,
)
    requires
        linked(arena, order),
        0 <= i <= j <= order.len(),
        arena.len() + 1 <= u32::MAX,
        ({
            let first = Piece(arena.len() as u32);
            let second = Piece((arena.len() + 1) as u32);
            let front = Piece(ring_at(order, i) as u32);
            let back = Piece(ring_at(order, j + 1) as u32);
            let a = link_arena(arena.push(unlinked(spans.0)), front, first);
            let b = link_arena(a.push(unlinked(spans.1)), second, back);
            after == link_arena(b, first, second)
        }),
    ensures
        after.len() == arena.len() + 2,
        after[0].span == arena[0].span,
        linked(after, order.take(i) + two_from(arena.len() as int) + order.skip(j)),
        spans_of(after, order.take(i) + two_from(arena.len() as int) + order.skip(j))
            == spans_of(arena, order).take(i) + seq![spans.0@, spans.1@] + spans_of(
            arena,
            order,
        ).skip(j),
{
    let first = Piece(arena.len() as u32);
    let second = Piece((arena.len() + 1) as u32);
    let front = Piece(ring_at(order, i) as u32);
    let back = Piece(ring_at(order, j + 1) as u32);
    let a0 = arena.push(unlinked(spans.0));
    let a1 = link_arena(a0, front, first);
    let a2 = a1.push(unlinked(spans.1));
    let a3 = link_arena(a2, second, back);
    let mid = two_from(arena.len() as int);
    let fresh = order.take(i) + mid + order.skip(j);
    lemma_link_arena(a0, front, first);
    lemma_link_arena(a2, second, back);
    lemma_link_arena(a3, first, second);
    assert(link_ok(after, fresh, i));
    assert forall|x: int| 0 <= x < arena.len() implies (#[trigger] after[x]).span
        == arena[x].span by {
    }
    assert forall|x: int| 0 <= x < arena.len() && x != ring_at(order, i) implies (
    #[trigger] after[x]).next == arena[x].next by {
    }
    assert forall|x: int| 0 <= x < arena.len() && x != ring_at(order, j + 1) implies (
    #[trigger] after[x]).prev == arena[x].prev by {
    }
    lemma_splice(arena, order, i, j, after, mid);
}

/// Three new pieces linked in place of the piece at position `k` of the
/// chain stand at positions `k`, `k + 1` and `k + 2` of the new chain.
pub(crate) proof fn lemma_link_three(
    arena: Seq<PieceData>,
    order: Seq<int>,
    k: int,
    spans: (Span, Span, Span),
    after: Seq<PieceData>,
)
    requires
        linked(arena, order),
        0 <= k < order.len(),
        arena.len() + 2 <= u32::MAX,
        ({
            let left = Piece(arena.len() as u32);
            let middle = Piece((arena.len() + 1) as u32);
            let right = Piece((arena.len() + 2) as u32);
            let prev = Piece(ring_at(order, k) as u32);
            let next = Piece(ring_at(order, k + 2) as u32);
            let grown = arena.push(unlinked(spans.0)).push(unlinked(spans.1)).push(
                unlinked(spans.2),
            );
            after == link_arena(
                link_arena(link_arena(link_arena(grown, prev, left), left, middle), middle, right),
                right,
                next,
            )
        }),
    ensures
        after.len() == arena.len() + 3,
        after[0].span == arena[0].span,
        linked(
            after,
            order.take(k) + three_from(arena.len() as int)
                + order.skip(k + 1),
        ),
        spans_of(
            after,
            order.take(k) + three_from(arena.len() as int)
                + order.skip(k + 1),
        ) == spans_of(arena, order).take(k) + seq![spans.0@, spans.1@, spans.2@] + spans_of(
            arena,
            order,
        ).skip(k + 1),
{
    let left = Piece(arena.len() as u32);
    let middle = Piece((arena.len() + 1) as u32);
    let right = Piece((arena.len() + 2) as u32);
    let prev = Piece(ring_at(order, k) as u32);
    let next = Piece(ring_at(order, k + 2) as u32);
    let a0 = arena.push(unlinked(spans.0)).push(unlinked(spans.1)).push(unlinked(spans.2));
    let a1 = link_arena(a0, prev, left);
    let a2 = link_arena(a1, left, middle);
    let a3 = link_arena(a2, middle, right);
    let mid = three_from(arena.len() as int);
    let fresh = order.take(k) + mid + order.skip(k + 1);
    lemma_link_arena(a0, prev, left);
    lemma_link_arena(a1, left, middle);
    lemma_link_arena(a2, middle, right);
    lemma_link_arena(a3, right, next);
    assert(link_ok(after, fresh, k));
    assert(link_ok(after, fresh, k + 1));
    assert forall|x: int| 0 <= x < arena.len() implies (#[trigger] after[x]).span
        == arena[x].span by {
    }
    assert forall|x: int| 0 <= x < arena.len() && x != ring_at(order, k) implies (
    #[trigger] after[x]).next == arena[x].next by {
    }
    assert forall|x: int| 0 <= x < arena.len() && x != ring_at(order, k + 2) implies (
    #[trigger] after[x]).prev == arena[x].prev by {
    }
    lemma_splice(arena, order, k, k + 1, after, mid);
}

/// Every position of the cycle holds an entry of the arena, and each link
/// holds the index of an entry.
pub(crate) proof fn lemma_ring_in_arena(arena: Seq<PieceData>, order: Seq<int>, k: int)
    requires
        linked(arena, order),
        0 <= k <= order.len() + 1,
    ensures
        0 <= ring_at(order, k) < arena.len(),
        ring_at(order, k) <= u32::MAX,
{
    if 1 <= k <= order.len() {
        assert(link_ok(arena, order, k - 1));
    }
}

} // verus!
