//! The mathematical model of a piece table.
//!
//! A text is modelled in two layers. The lower one is a backing byte
//! sequence together with a sequence of intervals into it (the pieces, in
//! text order); the upper one is the plain byte sequence obtained by
//! concatenating what the intervals cover. Edits are defined on both layers,
//! and the lemmas here show that they agree.

use vstd::prelude::*;
use crate::span::Interval;

verus! {

/// Sum of the lengths of `spans`.
pub open spec fn total(spans: Seq<Interval>) -> int
    decreases spans.len(),
{
    if spans.len() == 0 {
        0
    } else {
        total(spans.drop_last()) + spans.last().len()
    }
}

/// Concatenation of the bytes of `buf` that `spans` cover, in order.
pub open spec fn content(buf: Seq<u8>, spans: Seq<Interval>) -> Seq<u8>
    decreases spans.len(),
{
    if spans.len() == 0 {
        Seq::empty()
    } else {
        content(buf, spans.drop_last()) + buf.subrange(spans.last().start, spans.last().end)
    }
}

/// Every interval is non-empty and lies inside `[0, limit]`.
pub open spec fn spans_within(spans: Seq<Interval>, limit: int) -> bool {
    forall|k: int|
        0 <= k < spans.len() ==> 0 <= (#[trigger] spans[k]).start < spans[k].end <= limit
}

/// Text offset at which piece `k` starts; the text length for `k == spans.len()`.
pub open spec fn start_of(spans: Seq<Interval>, k: int) -> int {
    total(spans.take(k))
}

/// Index of the piece that covers text offset `off`. An offset on the
/// boundary between two pieces belongs to the piece that starts there; an
/// offset at or past the end of the text gives `spans.len()`.
pub open spec fn piece_at(spans: Seq<Interval>, off: int) -> int
    decreases spans.len(),
{
    if spans.len() == 0 {
        0
    } else if off < total(spans.drop_last()) {
        piece_at(spans.drop_last(), off)
    } else if off < total(spans) {
        spans.len() - 1
    } else {
        spans.len() as int
    }
}

/// Whether text offset `off` is the start of a piece or the end of the text.
pub open spec fn on_boundary(spans: Seq<Interval>, off: int) -> bool {
    off == start_of(spans, piece_at(spans, off))
}

/// `text` with `bytes` inserted before offset `off`.
pub open spec fn insert_at(text: Seq<u8>, off: int, bytes: Seq<u8>) -> Seq<u8> {
    text.subrange(0, off) + bytes + text.subrange(off, text.len() as int)
}

/// `text` without the bytes in `[off1, off2)`; unchanged where the range is
/// empty or inverted.
pub open spec fn delete_range(text: Seq<u8>, off1: int, off2: int) -> Seq<u8> {
    if off2 <= off1 {
        text
    } else {
        text.subrange(0, off1) + text.subrange(off2, text.len() as int)
    }
}

/// The pieces that lie before text offset `off`, the last one cut short
/// where `off` falls strictly inside it.
pub open spec fn spans_before(spans: Seq<Interval>, off: int) -> Seq<Interval> {
    let k = piece_at(spans, off);
    let d = off - start_of(spans, k);
    if d == 0 {
        spans.take(k)
    } else {
        spans.take(k).push(Interval { start: spans[k].start, end: spans[k].start + d })
    }
}

/// The pieces that lie at or after text offset `off`, the first one cut
/// short where `off` falls strictly inside it.
pub open spec fn spans_from(spans: Seq<Interval>, off: int) -> Seq<Interval> {
    let k = piece_at(spans, off);
    let d = off - start_of(spans, k);
    if d == 0 {
        spans.skip(k)
    } else {
        seq![Interval { start: spans[k].start + d, end: spans[k].end }] + spans.skip(k + 1)
    }
}

/// The pieces after inserting the piece `fresh` at text offset `off`: in
/// front of the piece that starts at `off`, or between the two halves of the
/// piece that `off` falls strictly inside.
pub open spec fn spans_insert(spans: Seq<Interval>, off: int, fresh: Interval) -> Seq<Interval> {
    spans_before(spans, off) + seq![fresh] + spans_from(spans, off)
}

/// The pieces after deleting the text range `[off1, off2)`.
pub open spec fn spans_delete(spans: Seq<Interval>, off1: int, off2: int) -> Seq<Interval> {
    if off2 <= off1 {
        spans
    } else {
        spans_before(spans, off1) + spans_from(spans, off2)
    }
}

/// The total length of a concatenation is the sum of the totals.
pub proof fn lemma_total_concat(a: Seq<Interval>, b: Seq<Interval>)
    ensures
        total(a + b) == total(a) + total(b),
    decreases b.len(),
{
    if b.len() > 0 {
        assert((a + b).drop_last() =~= a + b.drop_last());
        lemma_total_concat(a, b.drop_last());
    }
}

/// The content of a concatenation is the concatenation of the contents.
pub proof fn lemma_content_concat(buf: Seq<u8>, a: Seq<Interval>, b: Seq<Interval>)
    ensures
        content(buf, a + b) == content(buf, a) + content(buf, b),
    decreases b.len(),
{
    if b.len() > 0 {
        assert((a + b).drop_last() =~= a + b.drop_last());
        lemma_content_concat(buf, a, b.drop_last());
    }
}

/// The content of a single piece is the range of the buffer that it covers.
pub proof fn lemma_content_one(buf: Seq<u8>, r: Interval)
    requires
        0 <= r.start <= r.end <= buf.len(),
    ensures
        content(buf, seq![r]) == buf.subrange(r.start, r.end),
        total(seq![r]) == r.len(),
{
    let s = seq![r];
    assert(content(buf, s.drop_last()) =~= Seq::<u8>::empty());
    assert(total(s.drop_last()) == 0);
}

/// Pieces that lie inside the buffer yield as many bytes as their lengths
/// add up to.
pub proof fn lemma_content_len(buf: Seq<u8>, spans: Seq<Interval>)
    requires
        spans_within(spans, buf.len() as int),
    ensures
        content(buf, spans).len() == total(spans),
        total(spans) >= spans.len(),
    decreases spans.len(),
{
    if spans.len() > 0 {
        assert(spans_within(spans.drop_last(), buf.len() as int)) by {
            assert forall|k: int| 0 <= k < spans.drop_last().len() implies 0 <= (
            #[trigger] spans.drop_last()[k]).start < spans.drop_last()[k].end <= buf.len() by {
            }
        }
        lemma_content_len(buf, spans.drop_last());
    }
}

/// Appending to the buffer does not change what existing pieces yield.
pub proof fn lemma_content_grow(buf: Seq<u8>, extra: Seq<u8>, spans: Seq<Interval>)
    requires
        spans_within(spans, buf.len() as int),
    ensures
        content(buf + extra, spans) == content(buf, spans),
    decreases spans.len(),
{
    if spans.len() > 0 {
        assert(spans_within(spans.drop_last(), buf.len() as int)) by {
            assert forall|k: int| 0 <= k < spans.drop_last().len() implies 0 <= (
            #[trigger] spans.drop_last()[k]).start < spans.drop_last()[k].end <= buf.len() by {
            }
        }
        lemma_content_grow(buf, extra, spans.drop_last());
    }
}

/// Start offsets grow with the piece index: piece `k` starts where piece
/// `k - 1` ends, and the last piece ends at the total length.
pub proof fn lemma_start_step(spans: Seq<Interval>, k: int)
    requires
        0 <= k < spans.len(),
    ensures
        start_of(spans, k + 1) == start_of(spans, k) + spans[k].len(),
        start_of(spans, 0) == 0,
        start_of(spans, spans.len() as int) == total(spans),
{
    assert(spans.take(k + 1).drop_last() =~= spans.take(k));
    assert(spans.take(spans.len() as int) =~= spans);
}

/// With non-empty pieces, start offsets are strictly increasing.
pub proof fn lemma_start_increasing(spans: Seq<Interval>, limit: int, i: int, j: int)
    requires
        spans_within(spans, limit),
        0 <= i <= j <= spans.len(),
    ensures
        start_of(spans, i) + (j - i) <= start_of(spans, j),
    decreases j - i,
{
    if i < j {
        lemma_start_increasing(spans, limit, i, j - 1);
        lemma_start_step(spans, j - 1);
    }
}

/// With non-empty pieces, start offsets are strictly increasing, from zero
/// up to the total length.
pub proof fn lemma_start_monotonic(spans: Seq<Interval>, limit: int, i: int, j: int)
    requires
        spans_within(spans, limit),
        0 <= i <= j <= spans.len(),
    ensures
        start_of(spans, i) + (j - i) <= start_of(spans, j),
        0 <= start_of(spans, i),
        start_of(spans, j) <= total(spans),
{
    assert(spans.take(spans.len() as int) =~= spans);
    lemma_start_increasing(spans, limit, i, j);
    lemma_start_increasing(spans, limit, 0, i);
    lemma_start_increasing(spans, limit, j, spans.len() as int);
}

/// `piece_at` finds the one piece whose text range holds `off`: it starts
/// at or before `off` and ends after it. Only the end of the text belongs
/// to no piece.
pub proof fn lemma_piece_at(spans: Seq<Interval>, limit: int, off: int)
    requires
        spans_within(spans, limit),
        0 <= off <= total(spans),
    ensures
        0 <= piece_at(spans, off) <= spans.len(),
        start_of(spans, piece_at(spans, off)) <= off,
        piece_at(spans, off) < spans.len() ==> off < start_of(spans, piece_at(spans, off))
            + spans[piece_at(spans, off)].len(),
        piece_at(spans, off) == spans.len() <==> off == total(spans),
    decreases spans.len(),
{
    assert(spans.take(spans.len() as int) =~= spans);
    if spans.len() > 0 {
        let front = spans.drop_last();
        if off < total(front) {
            lemma_piece_at(front, limit, off);
            assert(front.take(piece_at(front, off)) =~= spans.take(piece_at(front, off)));
        }
    }
}

/// Whatever index meets the description of `piece_at` is `piece_at`.
pub proof fn lemma_piece_at_unique(spans: Seq<Interval>, limit: int, off: int, k: int)
    requires
        spans_within(spans, limit),
        0 <= k <= spans.len(),
        start_of(spans, k) <= off,
        k < spans.len() ==> off < start_of(spans, k) + spans[k].len(),
        k == spans.len() ==> off == total(spans),
    ensures
        piece_at(spans, off) == k,
{
    lemma_start_monotonic(spans, limit, 0, k);
    if k < spans.len() {
        lemma_start_step(spans, k);
        lemma_start_monotonic(spans, limit, k + 1, spans.len() as int);
    }
    lemma_piece_at(spans, limit, off);
    let j = piece_at(spans, off);
    if j < k {
        lemma_start_step(spans, j);
        lemma_start_monotonic(spans, limit, j + 1, k);
    } else if k < j {
        lemma_start_monotonic(spans, limit, k + 1, j);
    }
}

/// A later offset lies in the same piece or in a later one.
pub proof fn lemma_piece_at_ordered(spans: Seq<Interval>, limit: int, off1: int, off2: int)
    requires
        spans_within(spans, limit),
        0 <= off1 <= off2 <= total(spans),
    ensures
        piece_at(spans, off1) <= piece_at(spans, off2),
        piece_at(spans, off1) == piece_at(spans, off2) ==> start_of(spans, piece_at(spans, off1))
            <= off1,
        piece_at(spans, off1) < piece_at(spans, off2) ==> off1 < start_of(
            spans,
            piece_at(spans, off2),
        ),
{
    lemma_piece_at(spans, limit, off1);
    lemma_piece_at(spans, limit, off2);
    let k1 = piece_at(spans, off1);
    let k2 = piece_at(spans, off2);
    if k2 < k1 {
        lemma_start_step(spans, k2);
        lemma_start_monotonic(spans, limit, k2 + 1, k1);
    }
    if k1 < k2 {
        lemma_start_step(spans, k1);
        lemma_start_monotonic(spans, limit, k1 + 1, k2);
    }
}

/// The cut at a piece boundary: the first `k` pieces yield the text before
/// the start of piece `k`, the others yield the rest.
proof fn lemma_cut_boundary(buf: Seq<u8>, spans: Seq<Interval>, k: int)
    requires
        spans_within(spans, buf.len() as int),
        0 <= k <= spans.len(),
    ensures
        content(buf, spans).len() == total(spans),
        0 <= start_of(spans, k) <= total(spans),
        content(buf, spans.take(k)) == content(buf, spans).subrange(0, start_of(spans, k)),
        content(buf, spans.skip(k)) == content(buf, spans).subrange(
            start_of(spans, k),
            total(spans),
        ),
        total(spans.skip(k)) == total(spans) - start_of(spans, k),
{
    let front = spans.take(k);
    let back = spans.skip(k);
    lemma_content_len(buf, spans);
    lemma_content_len(buf, front);
    lemma_content_len(buf, back);
    assert(spans =~= front + back);
    lemma_content_concat(buf, front, back);
}

/// The cut strictly inside piece `k`, `d` bytes after its start.
proof fn lemma_cut_inside(buf: Seq<u8>, spans: Seq<Interval>, k: int, d: int)
    requires
        spans_within(spans, buf.len() as int),
        0 <= k < spans.len(),
        0 < d < spans[k].len(),
    ensures
        ({
            let left = Interval { start: spans[k].start, end: spans[k].start + d };
            let right = Interval { start: spans[k].start + d, end: spans[k].end };
            let off = start_of(spans, k) + d;
            let text = content(buf, spans);
            &&& text.len() == total(spans)
            &&& 0 <= off <= total(spans)
            &&& content(buf, spans.take(k).push(left)) == text.subrange(0, off)
            &&& content(buf, seq![right] + spans.skip(k + 1)) == text.subrange(off, total(spans))
            &&& total(spans.take(k).push(left)) == off
            &&& total(seq![right] + spans.skip(k + 1)) == total(spans) - off
            &&& spans_within(spans.take(k).push(left), buf.len() as int)
            &&& spans_within(seq![right] + spans.skip(k + 1), buf.len() as int)
        }),
{
    let r = spans[k];
    let left = Interval { start: r.start, end: r.start + d };
    let right = Interval { start: r.start + d, end: r.end };
    let off = start_of(spans, k) + d;
    let text = content(buf, spans);
    let front = spans.take(k);
    let back = spans.skip(k + 1);
    lemma_cut_boundary(buf, spans, k);
    lemma_cut_boundary(buf, spans, k + 1);
    lemma_start_step(spans, k);
    lemma_content_one(buf, left);
    lemma_content_one(buf, right);
    lemma_content_one(buf, r);
    assert(spans.take(k + 1) =~= front + seq![r]);
    lemma_content_concat(buf, front, seq![r]);
    assert(front.push(left) =~= front + seq![left]);
    lemma_content_concat(buf, front, seq![left]);
    lemma_total_concat(front, seq![left]);
    lemma_content_concat(buf, seq![right], back);
    lemma_total_concat(seq![right], back);
    let head = content(buf, front);
    assert(head + buf.subrange(left.start, left.end) =~= text.subrange(0, off)) by {
        assert forall|i: int| 0 <= i < off implies (head + buf.subrange(left.start, left.end))[i]
            == text.subrange(0, off)[i] by {
        }
    }
    assert(buf.subrange(right.start, right.end) + content(buf, back) =~= text.subrange(
        off,
        total(spans),
    )) by {
        let tail = content(buf, back);
        assert forall|i: int| 0 <= i < total(spans) - off implies (buf.subrange(
            right.start,
            right.end,
        ) + tail)[i] == text.subrange(off, total(spans))[i] by {
            if i < right.len() {
                assert(text.subrange(0, start_of(spans, k + 1))[off + i] == (head + buf.subrange(
                    r.start,
                    r.end,
                ))[off + i]);
            }
        }
    }
}

/// Cutting the pieces at a text offset cuts the text there: the pieces
/// before `off` yield the first `off` bytes, the pieces from `off` on yield
/// the rest, and both halves are valid piece sequences.
pub proof fn lemma_cut(buf: Seq<u8>, spans: Seq<Interval>, off: int)
    requires
        spans_within(spans, buf.len() as int),
        0 <= off <= total(spans),
    ensures
        content(buf, spans).len() == total(spans),
        content(buf, spans_before(spans, off)) == content(buf, spans).subrange(0, off),
        content(buf, spans_from(spans, off)) == content(buf, spans).subrange(
            off,
            total(spans),
        ),
        spans_within(spans_before(spans, off), buf.len() as int),
        spans_within(spans_from(spans, off), buf.len() as int),
        total(spans_before(spans, off)) == off,
        total(spans_from(spans, off)) == total(spans) - off,
{
    let limit = buf.len() as int;
    let n = spans.len() as int;
    lemma_piece_at(spans, limit, off);
    let k = piece_at(spans, off);
    let d = off - start_of(spans, k);
    assert(spans.take(n) =~= spans);
    if d == 0 {
        lemma_cut_boundary(buf, spans, k);
    } else {
        lemma_cut_inside(buf, spans, k, d);
    }
}

/// Inserting a piece that covers freshly appended bytes inserts those bytes
/// into the text, and leaves a valid piece sequence.
pub proof fn lemma_spans_insert(buf: Seq<u8>, spans: Seq<Interval>, off: int, bytes: Seq<u8>)
    requires
        spans_within(spans, buf.len() as int),
        0 <= off <= total(spans),
        bytes.len() > 0,
    ensures
        ({
            let fresh = Interval { start: buf.len() as int, end: (buf.len() + bytes.len()) as int };
            let after = spans_insert(spans, off, fresh);
            &&& content(buf + bytes, after) == insert_at(content(buf, spans), off, bytes)
            &&& spans_within(after, (buf.len() + bytes.len()) as int)
            &&& total(after) == total(spans) + bytes.len()
        }),
{
    let grown = buf + bytes;
    let fresh = Interval { start: buf.len() as int, end: (buf.len() + bytes.len()) as int };
    let before = spans_before(spans, off);
    let from = spans_from(spans, off);
    lemma_cut(buf, spans, off);
    lemma_content_grow(buf, bytes, before);
    lemma_content_grow(buf, bytes, from);
    lemma_content_one(grown, fresh);
    lemma_content_concat(grown, before + seq![fresh], from);
    lemma_content_concat(grown, before, seq![fresh]);
    lemma_total_concat(before + seq![fresh], from);
    lemma_total_concat(before, seq![fresh]);
}

/// Relinking the pieces around a deleted range deletes that range from the
/// text, and leaves a valid piece sequence.
pub proof fn lemma_spans_delete(buf: Seq<u8>, spans: Seq<Interval>, off1: int, off2: int)
    requires
        spans_within(spans, buf.len() as int),
        0 <= off1 < off2 <= total(spans),
    ensures
        content(buf, spans_delete(spans, off1, off2)) == delete_range(
            content(buf, spans),
            off1,
            off2,
        ),
        spans_within(spans_delete(spans, off1, off2), buf.len() as int),
        total(spans_delete(spans, off1, off2)) == total(spans) - (off2 - off1),
{
    let before = spans_before(spans, off1);
    let from = spans_from(spans, off2);
    lemma_cut(buf, spans, off1);
    lemma_cut(buf, spans, off2);
    lemma_content_concat(buf, before, from);
    lemma_total_concat(before, from);
}

/// An edit of a text.
pub enum Edit {
    /// Insert `bytes` before offset `off`.
    Insert { off: int, bytes: Seq<u8> },
    /// Delete the bytes in `[off1, off2)`.
    Delete { off1: int, off2: int },
}

impl Edit {
    /// Whether the offsets of the edit are in range for `text`. An empty or
    /// inverted range is in range for every text: deleting it does nothing.
    pub open spec fn fits(self, text: Seq<u8>) -> bool {
        match self {
            Edit::Insert { off, bytes } => 0 <= off <= text.len(),
            Edit::Delete { off1, off2 } => off2 <= off1 || (0 <= off1 && off2 <= text.len()),
        }
    }

    /// The edit performed on a plain byte sequence.
    pub open spec fn apply(self, text: Seq<u8>) -> Seq<u8> {
        match self {
            Edit::Insert { off, bytes } => insert_at(text, off, bytes),
            Edit::Delete { off1, off2 } => delete_range(text, off1, off2),
        }
    }

    /// By how much the edit changes the length of a text: the number of
    /// bytes inserted, or minus the number of bytes deleted.
    pub open spec fn growth(self) -> int {
        match self {
            Edit::Insert { off, bytes } => bytes.len() as int,
            Edit::Delete { off1, off2 } => if off2 <= off1 {
                0
            } else {
                off1 - off2
            },
        }
    }
}

/// `edits` performed on a plain byte sequence, one after the other.
pub open spec fn apply_all(text: Seq<u8>, edits: Seq<Edit>) -> Seq<u8>
    decreases edits.len(),
{
    if edits.len() == 0 {
        text
    } else {
        edits.last().apply(apply_all(text, edits.drop_last()))
    }
}

/// Each of `edits` is in range for the text that the edits before it leave.
pub open spec fn all_fit(text: Seq<u8>, edits: Seq<Edit>) -> bool
    decreases edits.len(),
{
    edits.len() == 0 || (all_fit(text, edits.drop_last()) && edits.last().fits(
        apply_all(text, edits.drop_last()),
    ))
}

/// Sum of the inserted lengths minus sum of the deleted lengths.
pub open spec fn growth_all(edits: Seq<Edit>) -> int
    decreases edits.len(),
{
    if edits.len() == 0 {
        0
    } else {
        growth_all(edits.drop_last()) + edits.last().growth()
    }
}

/// A piece table: a backing buffer and the pieces that make up the text.
pub struct Table {
    pub buf: Seq<u8>,
    pub spans: Seq<Interval>,
}

impl Table {
    /// Every piece is a non-empty range of the buffer.
    pub open spec fn valid(self) -> bool {
        spans_within(self.spans, self.buf.len() as int)
    }

    /// The text that the table holds.
    pub open spec fn text(self) -> Seq<u8> {
        content(self.buf, self.spans)
    }

    /// The edit performed on the table. Inserted bytes go to the end of the
    /// buffer and get a piece of their own; a deletion only relinks.
    pub open spec fn apply(self, edit: Edit) -> Table {
        match edit {
            Edit::Insert { off, bytes } => if bytes.len() == 0 {
                self
            } else {
                Table {
                    buf: self.buf + bytes,
                    spans: spans_insert(
                        self.spans,
                        off,
                        Interval {
                            start: self.buf.len() as int,
                            end: (self.buf.len() + bytes.len()) as int,
                        },
                    ),
                }
            },
            Edit::Delete { off1, off2 } => Table {
                buf: self.buf,
                spans: spans_delete(self.spans, off1, off2),
            },
        }
    }

    /// `edits` performed on the table, one after the other.
    pub open spec fn apply_all(self, edits: Seq<Edit>) -> Table
        decreases edits.len(),
    {
        if edits.len() == 0 {
            self
        } else {
            self.apply_all(edits.drop_last()).apply(edits.last())
        }
    }
}

/// Inserting no bytes leaves a text as it is.
pub proof fn lemma_insert_nothing(text: Seq<u8>, off: int)
    requires
        0 <= off <= text.len(),
    ensures
        insert_at(text, off, Seq::empty()) == text,
{
}

/// Deleting an empty or inverted range leaves a text and its pieces as they
/// are.
pub proof fn lemma_delete_nothing(table: Table, off1: int, off2: int)
    requires
        off2 <= off1,
    ensures
        delete_range(table.text(), off1, off2) == table.text(),
        table.apply(Edit::Delete { off1, off2 }) == table,
{
}

/// Deleting the whole range of a text leaves the empty text, and no piece.
pub proof fn lemma_delete_all(table: Table)
    requires
        table.valid(),
    ensures
        delete_range(table.text(), 0, table.text().len() as int) == Seq::<u8>::empty(),
        table.apply(Edit::Delete { off1: 0, off2: table.text().len() as int }).spans
            == Seq::<Interval>::empty(),
        table.apply(Edit::Delete { off1: 0, off2: table.text().len() as int }).text()
            == Seq::<u8>::empty(),
{
    let spans = table.spans;
    lemma_content_len(table.buf, spans);
    if table.text().len() > 0 {
        lemma_piece_at(spans, table.buf.len() as int, 0);
        lemma_start_monotonic(spans, table.buf.len() as int, 0, piece_at(spans, 0));
        assert(spans.take(spans.len() as int) =~= spans);
    }
}

/// A piece table and a plain byte sequence agree on every edit: an edit in
/// range keeps the table valid, and the text of the edited table is the
/// edited text.
pub proof fn lemma_edit_agrees(table: Table, edit: Edit)
    requires
        table.valid(),
        edit.fits(table.text()),
    ensures
        table.apply(edit).valid(),
        table.apply(edit).text() == edit.apply(table.text()),
        table.apply(edit).text().len() == table.text().len() + edit.growth(),
{
    lemma_content_len(table.buf, table.spans);
    match edit {
        Edit::Insert { off, bytes } => {
            if bytes.len() > 0 {
                lemma_spans_insert(table.buf, table.spans, off, bytes);
            }
        },
        Edit::Delete { off1, off2 } => {
            if off1 < off2 {
                lemma_spans_delete(table.buf, table.spans, off1, off2);
            }
        },
    }
}

/// A piece table and a plain byte sequence agree on every sequence of edits
/// in range: materializing the table after the edits gives what the same
/// edits make of the plain sequence.
pub proof fn lemma_edits_agree(table: Table, edits: Seq<Edit>)
    requires
        table.valid(),
        all_fit(table.text(), edits),
    ensures
        table.apply_all(edits).valid(),
        table.apply_all(edits).text() == apply_all(table.text(), edits),
    decreases edits.len(),
{
    if edits.len() > 0 {
        lemma_edits_agree(table, edits.drop_last());
        lemma_edit_agrees(table.apply_all(edits.drop_last()), edits.last());
    }
}

/// After every one of a sequence of edits in range, the length of the text
/// is its first length plus the lengths inserted minus the lengths deleted
/// so far.
pub proof fn lemma_len_after_edits(text: Seq<u8>, edits: Seq<Edit>)
    requires
        all_fit(text, edits),
    ensures
        forall|n: int|
            0 <= n <= edits.len() ==> (#[trigger] apply_all(text, edits.take(n))).len()
                == text.len() + growth_all(edits.take(n)),
{
    assert forall|n: int| 0 <= n <= edits.len() implies (#[trigger] apply_all(
        text,
        edits.take(n),
    )).len() == text.len() + growth_all(edits.take(n)) by {
        lemma_fit_prefix(text, edits, n);
        lemma_len_after_all(text, edits.take(n));
    }
}

/// The edits before a given one, of a sequence of edits in range, are in
/// range.
proof fn lemma_fit_prefix(text: Seq<u8>, edits: Seq<Edit>, n: int)
    requires
        all_fit(text, edits),
        0 <= n <= edits.len(),
    ensures
        all_fit(text, edits.take(n)),
    decreases edits.len(),
{
    if n == edits.len() {
        assert(edits.take(n) =~= edits);
    } else {
        lemma_fit_prefix(text, edits.drop_last(), n);
        assert(edits.drop_last().take(n) =~= edits.take(n));
    }
}

/// The length of a text after a sequence of edits in range.
proof fn lemma_len_after_all(text: Seq<u8>, edits: Seq<Edit>)
    requires
        all_fit(text, edits),
    ensures
        apply_all(text, edits).len() == text.len() + growth_all(edits),
    decreases edits.len(),
{
    if edits.len() > 0 {
        lemma_len_after_all(text, edits.drop_last());
    }
}

} // verus!
