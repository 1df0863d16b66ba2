//! What the walks over a document find where its rows form a chain.

use vstd::prelude::*;

use crate::faults::{EditFault, WalkKind};
use crate::piece_text::BufferCoord;
use crate::piece_text_chain::{
    anchors, apart, disjoint, has_piece, id_at, indexed, is_chain, is_linked, lemma_layout_at,
    live_len, row_in, stays_chain, text, whole, Piece,
};
use crate::piece_text_edit::{
    first_live_row, last_live_row, live_after, live_before, live_from_head, live_from_tail, precedes,
    reaches, resolve_coord, step_backward, step_forward, ResolveMatch,
};
use crate::piece_text_planner::{ClampDirection, PieceRow, ResolvePurpose};
use crate::piece_text_resolution::{
    clamp_walk, first_overlap, insert_span, lemma_matched_row, matched_row, overlap_fault,
    read_candidates, sorted_spans, span_le, span_of, Doc, EditError, ResolveCoreResult, ResolveEndpoint,
    Span,
};

verus! {

/// Nothing of the document has changed but what was read of it, and all that
/// was read is there.
#[verifier::opaque]
pub open spec fn intact<E>(before: Doc<E>, after: Doc<E>) -> bool {
    &&& after == (Doc {
        loaded: after.loaded,
        log: after.log,
        lookups: after.lookups,
        clamps: after.clamps,
        ..before
    })
    &&& forall|id: i64| #[trigger]
        after.loaded.contains(id) ==> before.loaded.contains(id) || before.at(id) is Ok
}

/// The two documents have the same rows, in the same order.
pub open spec fn is_same<E>(before: Doc<E>, after: Doc<E>) -> bool {
    &&& after.list_number == before.list_number
    &&& after.row == before.row
    &&& after.candidates == before.candidates
    &&& after.head == before.head
    &&& after.tail == before.tail
    &&& after.next_piece_id == before.next_piece_id
}

pub proof fn lemma_intact_chain<E>(before: Doc<E>, after: Doc<E>, pieces: Seq<Piece>)
    requires
        intact(before, after),
        is_linked(before, pieces),
    ensures
        stays_chain(before, pieces, after, pieces),
        is_same(before, after),
{
    reveal(is_linked);
    reveal(indexed);
    reveal(intact);
    assert forall|i: int| 0 <= i < pieces.len() implies after.at((#[trigger] pieces[i]).id) == Ok::<
        PieceRow,
        E,
    >(row_in(after.list_number, pieces, i)) by {
        assert(before.at(pieces[i].id) == after.at(pieces[i].id));
    }
    assert(after.candidates == before.candidates);
    assert forall|id: i64| (#[trigger] after.at(id)) is Ok implies id < after.next_piece_id by {
        assert(before.at(id) == after.at(id));
    }
}

pub proof fn lemma_endpoint_intact<E>(doc: Doc<E>, endpoint: ResolveEndpoint)
    ensures
        intact(doc, doc.after_endpoint(endpoint)),
{
    reveal(intact);
}

pub proof fn lemma_intact_then<E>(a: Doc<E>, b: Doc<E>, c: Doc<E>)
    requires
        intact(a, b),
        intact(b, c),
    ensures
        intact(a, c),
{
    reveal(intact);
    assert forall|id: i64| #[trigger] c.loaded.contains(id) implies a.loaded.contains(id) || a.at(
        id,
    ) is Ok by {
        assert(b.at(id) == a.at(id));
        assert(b.loaded.contains(id) || b.at(id) is Ok);
    }
}

/// A chain has fewer pieces than the next free id.
pub proof fn lemma_chain_len<E>(doc: Doc<E>, pieces: Seq<Piece>)
    requires
        is_linked(doc, pieces),
    ensures
        pieces.len() < doc.next_piece_id,
{
    reveal(is_linked);
    let ids = Seq::new(pieces.len(), |i: int| pieces[i].id as int);
    assert(ids.no_duplicates()) by {
        assert forall|i: int, j: int| 0 <= i < ids.len() && 0 <= j < ids.len() && i != j implies ids[i]
            != ids[j] by {
            assert(pieces[i].id != pieces[j].id);
        }
    }
    ids.unique_seq_to_set();
    let below = vstd::set_lib::set_int_range(1, doc.next_piece_id as int);
    vstd::set_lib::lemma_int_range(1, doc.next_piece_id as int);
    assert forall|x: int| ids.to_set().contains(x) implies below.contains(x) by {
        let i = choose|i: int| 0 <= i < ids.len() && ids[i] == x;
        assert(doc.at(pieces[i].id) is Ok);
    }
    vstd::set_lib::lemma_len_subset(ids.to_set(), below);
}

/// A piece of a chain can be read, and its links lead to its neighbours.
pub proof fn lemma_read_piece<E>(doc: Doc<E>, pieces: Seq<Piece>, i: int)
    requires
        is_linked(doc, pieces),
        0 <= i < pieces.len(),
    ensures
        doc.read(pieces[i].id).1 == Ok::<PieceRow, EditError<E>>(row_in(doc.list_number, pieces, i)),
        intact(doc, doc.read(pieces[i].id).0),
        stays_chain(doc, pieces, doc.read(pieces[i].id).0, pieces),
        is_same(doc, doc.read(pieces[i].id).0),
        pieces[i].id > 0,
        whole(pieces[i].coord),
{
    reveal(is_linked);
    reveal(intact);
    lemma_intact_chain(doc, doc.read(pieces[i].id).0, pieces);
}

/// A chain's ends are its first and its last piece.
pub proof fn lemma_chain_ends<E>(doc: Doc<E>, pieces: Seq<Piece>)
    requires
        is_linked(doc, pieces),
    ensures
        doc.head == Ok::<i64, E>(id_at(pieces, 0)),
        doc.tail == Ok::<i64, E>(id_at(pieces, pieces.len() - 1)),
{
    reveal(is_linked);
}

// ---------- candidates ----------

pub proof fn lemma_read_candidates<E>(doc: Doc<E>, pieces: Seq<Piece>, buffer_id: i64, ids: Seq<i64>)
    requires
        is_chain(doc, pieces),
        forall|k: int| 0 <= k < ids.len() ==> has_piece(pieces, #[trigger] ids[k], buffer_id),
    ensures
        intact(doc, read_candidates(doc, buffer_id, ids).0),
        read_candidates(doc, buffer_id, ids).1 matches Ok(rows) && rows.len() == ids.len() && forall|
            k: int,
        |
            0 <= k < ids.len() ==> Ok::<PieceRow, E>(#[trigger] rows[k]) == doc.at(ids[k]),
    decreases ids.len(),
{
    if ids.len() == 0 {
        reveal(intact);
    } else {
        let rest = ids.drop_last();
        assert forall|k: int| 0 <= k < rest.len() implies has_piece(pieces, #[trigger] rest[k], buffer_id) by {
            assert(rest[k] == ids[k]);
        }
        lemma_read_candidates(doc, pieces, buffer_id, rest);
        let d1 = read_candidates(doc, buffer_id, rest).0;
        assert(ids[ids.len() - 1] == ids.last());
        let i = choose|i: int|
            0 <= i < pieces.len() && (#[trigger] pieces[i]).id == ids.last()
                && pieces[i].coord.buffer_id == buffer_id;
        lemma_intact_chain(doc, d1, pieces);
        lemma_read_piece(d1, pieces, i);
        lemma_intact_then(doc, d1, d1.read(ids.last()).0);
        assert(doc.at(ids.last()) == d1.at(ids.last()));
    }
}

/// Ordered spans, each with an id of its own, of which no two have a byte in
/// common.
spec fn laid_apart(spans: Seq<Span>) -> bool {
    &&& forall|i: int| 0 <= i < spans.len() ==> (#[trigger] spans[i]).start < spans[i].end
    &&& forall|i: int, j: int|
        0 <= i < j < spans.len() ==> (#[trigger] spans[i]).id != (#[trigger] spans[j]).id && span_le(
            spans[i],
            spans[j],
        ) && (spans[i].end <= spans[j].start || spans[j].end <= spans[i].start)
}

proof fn lemma_insert_span_apart(spans: Seq<Span>, x: Span)
    requires
        laid_apart(spans),
        x.start < x.end,
        forall|i: int|
            0 <= i < spans.len() ==> (#[trigger] spans[i]).id != x.id && (spans[i].end <= x.start || x.end
                <= spans[i].start),
    ensures
        laid_apart(insert_span(spans, x)),
        insert_span(spans, x).len() == spans.len() + 1,
        forall|k: int|
            0 <= k < insert_span(spans, x).len() ==> (#[trigger] insert_span(spans, x)[k]) == x
                || spans.contains(insert_span(spans, x)[k]),
    decreases spans.len(),
{
    let out = insert_span(spans, x);
    if spans.len() == 0 || span_le(spans.last(), x) {
        assert(out == spans.push(x));
        assert forall|i: int, j: int| 0 <= i < j < out.len() implies (#[trigger] out[i]).id != (
        #[trigger] out[j]).id && span_le(out[i], out[j]) && (out[i].end <= out[j].start || out[j].end
            <= out[i].start) by {
            if j == spans.len() {
                assert(out[j] == x);
                if i < spans.len() - 1 {
                    assert(span_le(spans[i], spans[spans.len() - 1]));
                }
            }
        }
        assert forall|k: int| 0 <= k < out.len() implies (#[trigger] out[k]) == x || spans.contains(
            out[k],
        ) by {
            if k < spans.len() {
                assert(spans[k] == out[k]);
            }
        }
    } else {
        let rest = spans.drop_last();
        assert forall|i: int| 0 <= i < rest.len() implies (#[trigger] rest[i]).id != x.id && (
        rest[i].end <= x.start || x.end <= rest[i].start) by {
            assert(rest[i] == spans[i]);
        }
        assert(laid_apart(rest)) by {
            assert forall|i: int| 0 <= i < rest.len() implies (#[trigger] rest[i]).start < rest[i].end by {
                assert(rest[i] == spans[i]);
            }
            assert forall|i: int, j: int| 0 <= i < j < rest.len() implies (#[trigger] rest[i]).id != (
            #[trigger] rest[j]).id && span_le(rest[i], rest[j]) && (rest[i].end <= rest[j].start
                || rest[j].end <= rest[i].start) by {
                assert(rest[i] == spans[i] && rest[j] == spans[j]);
            }
        }
        lemma_insert_span_apart(rest, x);
        let inner = insert_span(rest, x);
        let last = spans.last();
        assert(last == spans[spans.len() - 1]);
        assert(out == inner.push(last));
        assert forall|k: int| 0 <= k < inner.len() implies (#[trigger] inner[k]).id != last.id
            && span_le(inner[k], last) && (inner[k].end <= last.start || last.end <= inner[k].start) by {
            if inner[k] != x {
                let m = choose|m: int| 0 <= m < rest.len() && rest[m] == inner[k];
                assert(spans[m] == inner[k]);
            }
        }
        assert forall|i: int, j: int| 0 <= i < j < out.len() implies (#[trigger] out[i]).id != (
        #[trigger] out[j]).id && span_le(out[i], out[j]) && (out[i].end <= out[j].start || out[j].end
            <= out[i].start) by {
            if j < inner.len() {
                assert(out[i] == inner[i] && out[j] == inner[j]);
            } else {
                assert(out[i] == inner[i]);
            }
        }
        assert forall|k: int| 0 <= k < out.len() implies (#[trigger] out[k]) == x || spans.contains(
            out[k],
        ) by {
            if k < inner.len() {
                assert(out[k] == inner[k]);
                if inner[k] != x {
                    let m = choose|m: int| 0 <= m < rest.len() && rest[m] == inner[k];
                    assert(spans[m] == inner[k]);
                }
            } else {
                assert(spans[spans.len() - 1] == out[k]);
            }
        }
    }
}

/// Rows of one buffer that are all different and have no byte in common.
pub open spec fn rows_apart(rows: Seq<PieceRow>) -> bool {
    &&& forall|k: int|
        0 <= k < rows.len() ==> (#[trigger] rows[k]).coord.len_bytes > 0 && rows[k].coord.end() <= u32::MAX
    &&& forall|k: int, l: int|
        0 <= k < l < rows.len() ==> (#[trigger] rows[k]).id != (#[trigger] rows[l]).id && (
        rows[k].coord.end() <= rows[l].coord.start_byte || rows[l].coord.end()
            <= rows[k].coord.start_byte)
}

proof fn lemma_sorted_spans_apart(rows: Seq<PieceRow>)
    requires
        rows_apart(rows),
    ensures
        laid_apart(sorted_spans(rows)),
        forall|k: int|
            0 <= k < sorted_spans(rows).len() ==> exists|m: int|
                0 <= m < rows.len() && span_of(#[trigger] rows[m]) == #[trigger] sorted_spans(rows)[k],
    decreases rows.len(),
{
    if rows.len() > 0 {
        let rest = rows.drop_last();
        assert(rows_apart(rest)) by {
            assert forall|k: int| 0 <= k < rest.len() implies (#[trigger] rest[k]).coord.len_bytes > 0
                && rest[k].coord.end() <= u32::MAX by {
                assert(rest[k] == rows[k]);
            }
            assert forall|k: int, l: int| 0 <= k < l < rest.len() implies (#[trigger] rest[k]).id != (
            #[trigger] rest[l]).id && (rest[k].coord.end() <= rest[l].coord.start_byte
                || rest[l].coord.end() <= rest[k].coord.start_byte) by {
                assert(rest[k] == rows[k] && rest[l] == rows[l]);
            }
        }
        lemma_sorted_spans_apart(rest);
        let before = sorted_spans(rest);
        let last = rows[rows.len() - 1];
        assert(rows.last() == last);
        let x = span_of(last);
        assert forall|i: int| 0 <= i < before.len() implies (#[trigger] before[i]).id != x.id && (
        before[i].end <= x.start || x.end <= before[i].start) by {
            let m = choose|m: int| 0 <= m < rest.len() && span_of(#[trigger] rest[m]) == before[i];
            assert(rest[m] == rows[m]);
        }
        lemma_insert_span_apart(before, x);
        let out = sorted_spans(rows);
        assert forall|k: int| 0 <= k < out.len() implies exists|m: int|
            0 <= m < rows.len() && span_of(#[trigger] rows[m]) == #[trigger] out[k] by {
            if out[k] == x {
                assert(span_of(rows[rows.len() - 1]) == out[k]);
            } else {
                let i = choose|i: int| 0 <= i < before.len() && before[i] == out[k];
                let m = choose|m: int| 0 <= m < rest.len() && span_of(#[trigger] rest[m]) == before[i];
                assert(rest[m] == rows[m]);
            }
        }
    }
}

proof fn lemma_no_overlap(spans: Seq<Span>)
    requires
        laid_apart(spans),
    ensures
        first_overlap(spans) is None,
    decreases spans.len(),
{
    if spans.len() >= 2 {
        let rest = spans.drop_last();
        assert(laid_apart(rest)) by {
            assert forall|i: int| 0 <= i < rest.len() implies (#[trigger] rest[i]).start < rest[i].end by {
                assert(rest[i] == spans[i]);
            }
            assert forall|i: int, j: int| 0 <= i < j < rest.len() implies (#[trigger] rest[i]).id != (
            #[trigger] rest[j]).id && span_le(rest[i], rest[j]) && (rest[i].end <= rest[j].start
                || rest[j].end <= rest[i].start) by {
                assert(rest[i] == spans[i] && rest[j] == spans[j]);
            }
        }
        lemma_no_overlap(rest);
        let n = spans.len() as int;
        assert(span_le(spans[n - 2], spans[n - 1]));
        assert(spans[n - 2].start < spans[n - 2].end && spans[n - 1].start < spans[n - 1].end);
    }
}

// ---------- resolution ----------

/// A coordinate lies at no more than one piece.
pub proof fn lemma_anchor_unique(pieces: Seq<Piece>, at: BufferCoord, i: int, j: int)
    requires
        disjoint(pieces),
        anchors(pieces, at, i),
        anchors(pieces, at, j),
    ensures
        i == j,
{
    if i < j {
        assert(apart(pieces[i].coord, pieces[j].coord));
        assert(whole(pieces[i].coord) && whole(pieces[j].coord));
    } else if j < i {
        assert(apart(pieces[j].coord, pieces[i].coord));
        assert(whole(pieces[i].coord) && whole(pieces[j].coord));
    }
}

/// Rows of one buffer overlap nowhere exactly if they have no byte in common.
pub proof fn lemma_overlap(buffer_id: i64, rows: Seq<PieceRow>)
    requires
        forall|k: int|
            0 <= k < rows.len() ==> (#[trigger] rows[k]).coord.len_bytes > 0 && rows[k].coord.end() <= u32::MAX,
        forall|k: int, l: int| 0 <= k < l < rows.len() ==> (#[trigger] rows[k]).id != (#[trigger] rows[l]).id,
    ensures
        overlap_fault(buffer_id, rows) is None <==> rows_apart(rows),
{
    if rows_apart(rows) {
        lemma_sorted_spans_apart(rows);
        lemma_no_overlap(sorted_spans(rows));
    }
    if overlap_fault(buffer_id, rows) is None {
        let spans = sorted_spans(rows);
        lemma_sorted_spans_hold(rows);
        assert forall|k: int, l: int| 0 <= k < l < rows.len() implies (#[trigger] rows[k]).id != (
        #[trigger] rows[l]).id && (rows[k].coord.end() <= rows[l].coord.start_byte || rows[l].coord.end()
            <= rows[k].coord.start_byte) by {
            assert(spans.contains(span_of(rows[k])) && spans.contains(span_of(rows[l])));
            let i = choose|i: int| 0 <= i < spans.len() && spans[i] == span_of(rows[k]);
            let j = choose|j: int| 0 <= j < spans.len() && spans[j] == span_of(rows[l]);
            if i < j {
                lemma_spans_follow(spans, i, j);
            } else {
                lemma_spans_follow(spans, j, i);
            }
        }
    }
}

/// Spans in order of which none overlaps the next: an earlier one ends before a
/// later one starts.
proof fn lemma_spans_follow(spans: Seq<Span>, i: int, j: int)
    requires
        first_overlap(spans) is None,
        forall|k: int| 0 <= k < spans.len() ==> (#[trigger] spans[k]).start < spans[k].end,
        0 <= i < j < spans.len(),
    ensures
        spans[i].end <= spans[j].start,
    decreases spans.len(),
{
    let rest = spans.drop_last();
    assert forall|k: int| 0 <= k < rest.len() implies (#[trigger] rest[k]).start < rest[k].end by {
        assert(rest[k] == spans[k]);
    }
    if j < rest.len() {
        lemma_spans_follow(rest, i, j);
    } else if i < rest.len() - 1 {
        lemma_spans_follow(rest, i, rest.len() - 1);
        assert(spans[rest.len() - 1].start < spans[rest.len() - 1].end);
    }
}

proof fn lemma_insert_span_holds(spans: Seq<Span>, x: Span)
    ensures
        insert_span(spans, x).len() == spans.len() + 1,
        insert_span(spans, x).contains(x),
        forall|y: Span| #[trigger] spans.contains(y) ==> insert_span(spans, x).contains(y),
        forall|k: int|
            0 <= k < insert_span(spans, x).len() ==> (#[trigger] insert_span(spans, x)[k]) == x
                || spans.contains(insert_span(spans, x)[k]),
    decreases spans.len(),
{
    let out = insert_span(spans, x);
    if spans.len() == 0 || span_le(spans.last(), x) {
        assert(out[spans.len() as int] == x);
        assert forall|y: Span| #[trigger] spans.contains(y) implies out.contains(y) by {
            let i = choose|i: int| 0 <= i < spans.len() && spans[i] == y;
            assert(out[i] == y);
        }
    } else {
        let rest = spans.drop_last();
        let inner = insert_span(rest, x);
        lemma_insert_span_holds(rest, x);
        assert forall|y: Span| inner.contains(y) implies #[trigger] out.contains(y) by {
            let i = choose|i: int| 0 <= i < inner.len() && inner[i] == y;
            assert(out[i] == y);
        }
        assert(out.contains(x));
        assert forall|y: Span| #[trigger] spans.contains(y) implies out.contains(y) by {
            let i = choose|i: int| 0 <= i < spans.len() && spans[i] == y;
            if i < rest.len() {
                assert(rest[i] == y);
                assert(rest.contains(y));
                assert(inner.contains(y));
            } else {
                assert(out[inner.len() as int] == y);
            }
        }
        assert forall|k: int| 0 <= k < out.len() implies (#[trigger] out[k]) == x || spans.contains(out[k]) by {
            if k < inner.len() {
                assert(out[k] == inner[k]);
                if inner[k] != x {
                    let i = choose|i: int| 0 <= i < rest.len() && rest[i] == inner[k];
                    assert(spans[i] == out[k]);
                }
            } else {
                assert(spans[spans.len() - 1] == out[k]);
            }
        }
    }
}

proof fn lemma_sorted_spans_hold(rows: Seq<PieceRow>)
    requires
        forall|k: int|
            0 <= k < rows.len() ==> (#[trigger] rows[k]).coord.len_bytes > 0 && rows[k].coord.end() <= u32::MAX,
    ensures
        forall|m: int| 0 <= m < rows.len() ==> sorted_spans(rows).contains(span_of(#[trigger] rows[m])),
        forall|k: int|
            0 <= k < sorted_spans(rows).len() ==> (#[trigger] sorted_spans(rows)[k]).start < sorted_spans(
                rows,
            )[k].end,
    decreases rows.len(),
{
    if rows.len() > 0 {
        let rest = rows.drop_last();
        assert forall|k: int| 0 <= k < rest.len() implies (#[trigger] rest[k]).coord.len_bytes > 0
            && rest[k].coord.end() <= u32::MAX by {
            assert(rest[k] == rows[k]);
        }
        lemma_sorted_spans_hold(rest);
        let before = sorted_spans(rest);
        let last = rows[rows.len() - 1];
        assert(rows.last() == last);
        lemma_insert_span_holds(before, span_of(last));
        assert forall|m: int| 0 <= m < rows.len() implies sorted_spans(rows).contains(
            span_of(#[trigger] rows[m]),
        ) by {
            if m < rest.len() {
                assert(rest[m] == rows[m]);
                assert(before.contains(span_of(rest[m])));
            }
        }
        assert forall|k: int| 0 <= k < sorted_spans(rows).len() implies (
        #[trigger] sorted_spans(rows)[k]).start < sorted_spans(rows)[k].end by {
            if sorted_spans(rows)[k] != span_of(last) {
                let i = choose|i: int| 0 <= i < before.len() && before[i] == sorted_spans(rows)[k];
                assert(before[i].start < before[i].end);
            }
        }
    }
}

/// On a chain the candidates for a coordinate give the one piece that it lies at,
/// or none.
pub proof fn lemma_candidates_match<E>(
    doc: Doc<E>,
    pieces: Seq<Piece>,
    at: BufferCoord,
    ids: Seq<i64>,
    rows: Seq<PieceRow>,
)
    requires
        is_chain(doc, pieces),
        at.buffer_id > 0,
        ids.no_duplicates(),
        forall|id: i64| #[trigger] ids.contains(id) == has_piece(pieces, id, at.buffer_id),
        rows.len() == ids.len(),
        forall|k: int| 0 <= k < ids.len() ==> Ok::<PieceRow, E>(#[trigger] rows[k]) == doc.at(ids[k]),
    ensures
        overlap_fault(at.buffer_id, rows) is None,
        match matched_row(rows, at.byte_pos) {
            Some(row) => exists|i: int|
                anchors(pieces, at, i) && row == #[trigger] row_in(doc.list_number, pieces, i),
            None => forall|i: int| !anchors(pieces, at, i),
        },
{
    reveal(is_linked);
    reveal(indexed);
    let place = |k: int| choose|i: int|
        0 <= i < pieces.len() && (#[trigger] pieces[i]).id == ids[k] && pieces[i].coord.buffer_id
            == at.buffer_id;
    assert forall|k: int| 0 <= k < rows.len() implies 0 <= #[trigger] place(k) < pieces.len()
        && pieces[place(k)].id == ids[k] && pieces[place(k)].coord.buffer_id == at.buffer_id && rows[k]
        == row_in(doc.list_number, pieces, place(k)) by {
        assert(ids.contains(ids[k]));
        assert(has_piece(pieces, ids[k], at.buffer_id));
        assert(Ok::<PieceRow, E>(rows[k]) == doc.at(ids[k]));
        let i = place(k);
        assert(doc.at(pieces[i].id) == Ok::<PieceRow, E>(row_in(doc.list_number, pieces, i)));
    }
    assert(rows_apart(rows)) by {
        assert forall|k: int| 0 <= k < rows.len() implies whole((#[trigger] rows[k]).coord) by {
            assert(whole(pieces[place(k)].coord));
        }
        assert forall|k: int, l: int| 0 <= k < l < rows.len() implies (#[trigger] rows[k]).id != (
        #[trigger] rows[l]).id && (rows[k].coord.end() <= rows[l].coord.start_byte || rows[l].coord.end()
            <= rows[k].coord.start_byte) by {
            let i = place(k);
            let j = place(l);
            assert(ids[k] != ids[l]);
            assert(i != j);
            if i < j {
                assert(apart(pieces[i].coord, pieces[j].coord));
            } else {
                assert(apart(pieces[j].coord, pieces[i].coord));
            }
        }
    }
    lemma_sorted_spans_apart(rows);
    lemma_no_overlap(sorted_spans(rows));
    lemma_matched_row(rows, at.byte_pos);
    // Every piece of the buffer is among the rows.
    assert forall|j: int|
        0 <= j < pieces.len() && (#[trigger] pieces[j]).coord.buffer_id == at.buffer_id implies exists|k: int|

        0 <= k < rows.len() && #[trigger] rows[k] == row_in(doc.list_number, pieces, j) by {
        assert(has_piece(pieces, pieces[j].id, at.buffer_id));
        assert(ids.contains(pieces[j].id));
        let k = choose|k: int| 0 <= k < ids.len() && ids[k] == pieces[j].id;
        assert(Ok::<PieceRow, E>(rows[k]) == doc.at(ids[k]));
    }
    match matched_row(rows, at.byte_pos) {
        Some(row) => {
            let k = choose|k: int| 0 <= k < rows.len() && rows[k] == row;
            let i = place(k);
            assert(row == row_in(doc.list_number, pieces, i));
            assert(whole(pieces[i].coord));
            assert(anchors(pieces, at, i)) by {
                if pieces[i].coord.start_byte == at.byte_pos {
                    assert forall|j: int|
                        0 <= j < pieces.len() && (#[trigger] pieces[j]).coord.buffer_id
                            == at.buffer_id implies pieces[j].coord.end() != at.byte_pos by {
                        let l = choose|l: int|
                            0 <= l < rows.len() && #[trigger] rows[l] == row_in(
                                doc.list_number,
                                pieces,
                                j,
                            );
                        assert(rows[l].coord.end() != at.byte_pos);
                    }
                }
            }
        },
        None => {
            assert forall|i: int| !anchors(pieces, at, i) by {
                if anchors(pieces, at, i) {
                    assert(pieces[i].coord.buffer_id == at.buffer_id);
                    let k = choose|k: int|
                        0 <= k < rows.len() && #[trigger] rows[k] == row_in(doc.list_number, pieces, i);
                    assert(!(rows[k].coord.start_byte <= at.byte_pos <= rows[k].coord.end()));
                }
            }
        },
    }
}

// ---------- the nearest live piece ----------

/// The last live piece among the first `n`, or -1.
pub open spec fn last_live(pieces: Seq<Piece>, n: int) -> int
    decreases n,
{
    if n <= 0 {
        -1
    } else if !pieces[n - 1].coord.tombstone {
        n - 1
    } else {
        last_live(pieces, n - 1)
    }
}

/// The first live piece from the `n`-th on, or the length.
pub open spec fn first_live(pieces: Seq<Piece>, n: int) -> int
    decreases pieces.len() - n,
{
    if n >= pieces.len() {
        pieces.len() as int
    } else if !pieces[n].coord.tombstone {
        n
    } else {
        first_live(pieces, n + 1)
    }
}

/// Between the `n`-th piece and the last live piece before it lies nothing that a
/// reader sees.
pub proof fn lemma_last_live(pieces: Seq<Piece>, n: int)
    requires
        0 <= n <= pieces.len(),
    ensures
        -1 <= last_live(pieces, n) < n,
        last_live(pieces, n) >= 0 ==> !pieces[last_live(pieces, n)].coord.tombstone,
        forall|j: int| last_live(pieces, n) < j < n ==> (#[trigger] pieces[j]).coord.tombstone,
        live_len(pieces, n) == live_len(pieces, last_live(pieces, n) + 1),
        last_live(pieces, n) < 0 ==> live_len(pieces, n) == 0,
    decreases n,
{
    if n > 0 {
        if pieces[n - 1].coord.tombstone {
            lemma_last_live(pieces, n - 1);
            lemma_layout_at(pieces, n - 1, false);
        }
    }
}

pub proof fn lemma_first_live(pieces: Seq<Piece>, n: int)
    requires
        0 <= n <= pieces.len(),
    ensures
        n <= first_live(pieces, n) <= pieces.len(),
        first_live(pieces, n) < pieces.len() ==> !pieces[first_live(pieces, n)].coord.tombstone,
        forall|j: int| n <= j < first_live(pieces, n) ==> (#[trigger] pieces[j]).coord.tombstone,
        live_len(pieces, n) == live_len(pieces, first_live(pieces, n)),
        first_live(pieces, n) == pieces.len() ==> live_len(pieces, n) == text(pieces).len(),
    decreases pieces.len() - n,
{
    if n < pieces.len() && pieces[n].coord.tombstone {
        lemma_first_live(pieces, n + 1);
        lemma_layout_at(pieces, n, false);
    }
    if n == pieces.len() {
        assert(pieces.take(n) =~= pieces);
    }
}

proof fn lemma_clamp_backward<E>(doc: Doc<E>, pieces: Seq<Piece>, start_row_id: i64, i: int, hops: u32)
    requires
        is_linked(doc, pieces),
        0 <= i < pieces.len(),
        hops + i + 1 < u32::MAX,
    ensures
        ({
            let row = row_in(doc.list_number, pieces, i);
            let (d, r) = clamp_walk(doc, start_row_id, row, ClampDirection::Backward, hops);
            let j = last_live(pieces, i + 1);
            &&& intact(doc, d)
            &&& r matches Ok(result) && if j >= 0 {
                result matches ResolveCoreResult::ClampedToRow { row: found, .. } && found == row_in(
                    doc.list_number,
                    pieces,
                    j,
                )
            } else {
                result is ClampedBeforeHead
            }
        }),
    decreases i,
{
    let row = row_in(doc.list_number, pieces, i);
    lemma_read_piece(doc, pieces, i);
    lemma_chain_ends(doc, pieces);
    assert(intact(doc, doc)) by {
        reveal(intact);
    }
    lemma_endpoint_intact(doc, ResolveEndpoint::Head);
    if pieces[i].coord.tombstone {
        assert(last_live(pieces, i + 1) == last_live(pieces, i));
        if i > 0 {
            lemma_read_piece(doc, pieces, i - 1);
            let d = doc.read(pieces[i - 1].id).0;
            lemma_clamp_backward(d, pieces, start_row_id, i - 1, (hops + 1) as u32);
            lemma_intact_then(
                doc,
                d,
                clamp_walk(
                    d,
                    start_row_id,
                    row_in(doc.list_number, pieces, i - 1),
                    ClampDirection::Backward,
                    (hops + 1) as u32,
                ).0,
            );
        }
    }
}

proof fn lemma_clamp_forward<E>(doc: Doc<E>, pieces: Seq<Piece>, start_row_id: i64, i: int, hops: u32)
    requires
        is_linked(doc, pieces),
        0 <= i < pieces.len(),
        hops + (pieces.len() - i) < u32::MAX,
    ensures
        ({
            let row = row_in(doc.list_number, pieces, i);
            let (d, r) = clamp_walk(doc, start_row_id, row, ClampDirection::Forward, hops);
            let j = first_live(pieces, i);
            &&& intact(doc, d)
            &&& r matches Ok(result) && if j < pieces.len() {
                result matches ResolveCoreResult::ClampedToRow { row: found, .. } && found == row_in(
                    doc.list_number,
                    pieces,
                    j,
                )
            } else {
                result is ClampedAfterTail
            }
        }),
    decreases pieces.len() - i,
{
    let row = row_in(doc.list_number, pieces, i);
    lemma_read_piece(doc, pieces, i);
    lemma_chain_ends(doc, pieces);
    assert(intact(doc, doc)) by {
        reveal(intact);
    }
    lemma_endpoint_intact(doc, ResolveEndpoint::Tail);
    if pieces[i].coord.tombstone {
        assert(first_live(pieces, i) == first_live(pieces, i + 1));
        if i + 1 < pieces.len() {
            lemma_read_piece(doc, pieces, i + 1);
            let d = doc.read(pieces[i + 1].id).0;
            lemma_clamp_forward(d, pieces, start_row_id, i + 1, (hops + 1) as u32);
            lemma_intact_then(
                doc,
                d,
                clamp_walk(
                    d,
                    start_row_id,
                    row_in(doc.list_number, pieces, i + 1),
                    ClampDirection::Forward,
                    (hops + 1) as u32,
                ).0,
            );
        }
    }
}

/// Where a coordinate at the `i`-th piece lies once deleted pieces are stepped
/// over.
pub open spec fn match_at(
    list_number: i64,
    pieces: Seq<Piece>,
    at: BufferCoord,
    purpose: ResolvePurpose,
    i: int,
) -> ResolveMatch {
    if !pieces[i].coord.tombstone {
        ResolveMatch::InRow {
            row: row_in(list_number, pieces, i),
            k: (at.byte_pos - pieces[i].coord.start_byte) as u32,
        }
    } else if purpose is DeleteStart {
        let j = first_live(pieces, i);
        if j < pieces.len() {
            ResolveMatch::AfterClamp { row_id: pieces[j].id }
        } else {
            ResolveMatch::AfterTailClamped
        }
    } else {
        let j = last_live(pieces, i + 1);
        if j >= 0 {
            ResolveMatch::AfterClamp { row_id: pieces[j].id }
        } else {
            ResolveMatch::BeforeHeadClamped
        }
    }
}

pub proof fn lemma_lookup<E>(doc: Doc<E>, pieces: Seq<Piece>, buffer_id: i64)
    requires
        is_chain(doc, pieces),
        buffer_id > 0,
    ensures
        (doc.candidates)(buffer_id) matches Ok(ids) && ids.no_duplicates() && forall|id: i64| #[trigger]
            ids.contains(id) == has_piece(pieces, id, buffer_id),
        intact(doc, doc.after_lookup(buffer_id)),
{
    reveal(is_linked);
    reveal(indexed);
    reveal(intact);
}

pub proof fn lemma_chain_disjoint<E>(doc: Doc<E>, pieces: Seq<Piece>)
    requires
        is_linked(doc, pieces),
    ensures
        disjoint(pieces),
{
    reveal(is_linked);
}

/// On a chain a coordinate is resolved where it is known.
pub proof fn lemma_resolve<E>(doc: Doc<E>, pieces: Seq<Piece>, at: BufferCoord, purpose: ResolvePurpose)
    requires
        is_chain(doc, pieces),
        pieces.len() < u32::MAX - 1,
        at != BufferCoord::document_start(),
        at.buffer_id > 0,
    ensures
        forall|i: int| #[trigger]
            anchors(pieces, at, i) ==> intact(doc, resolve_coord(doc, at, purpose).0) && resolve_coord(
                doc,
                at,
                purpose,
            ).1 == Ok::<ResolveMatch, EditError<E>>(
                match_at(doc.list_number, pieces, at, purpose, i),
            ),
        (forall|i: int| !anchors(pieces, at, i)) ==> resolve_coord(doc, at, purpose).1 == Err::<
            ResolveMatch,
            EditError<E>,
        >(EditError::Fault(EditFault::UnknownCoordinate { coord: at, purpose })),
{
    lemma_lookup(doc, pieces, at.buffer_id);
    let ids = (doc.candidates)(at.buffer_id)->Ok_0;
    let d0 = doc.after_lookup(at.buffer_id);
    lemma_intact_chain(doc, d0, pieces);
    assert forall|k: int| 0 <= k < ids.len() implies has_piece(pieces, #[trigger] ids[k], at.buffer_id) by {
        assert(ids.contains(ids[k]));
    }
    lemma_read_candidates(d0, pieces, at.buffer_id, ids);
    let (d1, r1) = read_candidates(d0, at.buffer_id, ids);
    let rows = r1->Ok_0;
    lemma_intact_then(doc, d0, d1);
    lemma_intact_chain(d0, d1, pieces);
    lemma_candidates_match(d0, pieces, at, ids, rows);
    match matched_row(rows, at.byte_pos) {
        Some(row) => {
            let j = choose|j: int|
                anchors(pieces, at, j) && row == #[trigger] row_in(doc.list_number, pieces, j);
            assert forall|i: int| #[trigger] anchors(pieces, at, i) implies intact(
                doc,
                resolve_coord(doc, at, purpose).0,
            ) && resolve_coord(doc, at, purpose).1 == Ok::<ResolveMatch, EditError<E>>(
                match_at(doc.list_number, pieces, at, purpose, i),
            ) by {
                assert(i == j) by {
                    lemma_chain_disjoint(doc, pieces);
                    lemma_anchor_unique(pieces, at, i, j);
                }
                lemma_resolve_match(doc, pieces, at, purpose, ids, rows, i);
            }
        },
        None => {},
    }
}

/// A coordinate that lies at one of the pieces is resolved to it, whatever has
/// been read before.
#[verifier::opaque]
pub open spec fn finds<E>(doc: Doc<E>, pieces: Seq<Piece>, at: BufferCoord) -> bool {
    forall|d: Doc<E>, purpose: ResolvePurpose, i: int|
        intact(doc, d) && #[trigger] anchors(pieces, at, i) ==> intact(
            d,
            (#[trigger] resolve_coord(d, at, purpose)).0,
        ) && resolve_coord(d, at, purpose).1 == Ok::<ResolveMatch, EditError<E>>(
            match_at(doc.list_number, pieces, at, purpose, i),
        )
}

pub proof fn lemma_found<E>(
    doc: Doc<E>,
    pieces: Seq<Piece>,
    at: BufferCoord,
    purpose: ResolvePurpose,
    i: int,
)
    requires
        finds(doc, pieces, at),
        anchors(pieces, at, i),
    ensures
        intact(doc, resolve_coord(doc, at, purpose).0),
        resolve_coord(doc, at, purpose).1 == Ok::<ResolveMatch, EditError<E>>(
            match_at(doc.list_number, pieces, at, purpose, i),
        ),
{
    reveal(finds);
    assert(intact(doc, doc)) by {
        reveal(intact);
    }
}

pub proof fn lemma_still_finds<E>(doc: Doc<E>, d: Doc<E>, pieces: Seq<Piece>, at: BufferCoord)
    requires
        finds(doc, pieces, at),
        intact(doc, d),
    ensures
        finds(d, pieces, at),
{
    reveal(finds);
    assert(d.list_number == doc.list_number) by {
        reveal(intact);
    }
    assert forall|e: Doc<E>, purpose: ResolvePurpose, i: int|
        intact(d, e) && #[trigger] anchors(pieces, at, i) implies intact(
        e,
        (#[trigger] resolve_coord(e, at, purpose)).0,
    ) && resolve_coord(e, at, purpose).1 == Ok::<ResolveMatch, EditError<E>>(
        match_at(d.list_number, pieces, at, purpose, i),
    ) by {
        lemma_intact_then(doc, d, e);
    }
}

/// On a chain all coordinates are found.
pub proof fn lemma_finds<E>(doc: Doc<E>, pieces: Seq<Piece>, at: BufferCoord)
    requires
        is_chain(doc, pieces),
        pieces.len() < u32::MAX - 1,
        at != BufferCoord::document_start(),
        at.buffer_id > 0,
    ensures
        finds(doc, pieces, at),
{
    reveal(finds);
    assert forall|d: Doc<E>, purpose: ResolvePurpose, i: int|
        intact(doc, d) && #[trigger] anchors(pieces, at, i) implies intact(
        d,
        (#[trigger] resolve_coord(d, at, purpose)).0,
    ) && resolve_coord(d, at, purpose).1 == Ok::<ResolveMatch, EditError<E>>(
        match_at(doc.list_number, pieces, at, purpose, i),
    ) by {
        lemma_intact_chain(doc, d, pieces);
        lemma_resolve(d, pieces, at, purpose);
    }
}

/// Where a coordinate's row is the `i`-th piece, deleted pieces are stepped over.
proof fn lemma_resolve_match<E>(
    doc: Doc<E>,
    pieces: Seq<Piece>,
    at: BufferCoord,
    purpose: ResolvePurpose,
    ids: Seq<i64>,
    rows: Seq<PieceRow>,
    i: int,
)
    requires
        is_linked(doc, pieces),
        !pieces[i].coord.tombstone || pieces.len() < u32::MAX - 1,
        at != BufferCoord::document_start(),
        at.buffer_id > 0,
        (doc.candidates)(at.buffer_id) == Ok::<Seq<i64>, E>(ids),
        read_candidates(doc.after_lookup(at.buffer_id), at.buffer_id, ids).1 == Ok::<
            Seq<PieceRow>,
            EditError<E>,
        >(rows),
        intact(doc, read_candidates(doc.after_lookup(at.buffer_id), at.buffer_id, ids).0),
        overlap_fault(at.buffer_id, rows) is None,
        anchors(pieces, at, i),
        matched_row(rows, at.byte_pos) == Some(row_in(doc.list_number, pieces, i)),
    ensures
        intact(doc, resolve_coord(doc, at, purpose).0),
        resolve_coord(doc, at, purpose).1 == Ok::<ResolveMatch, EditError<E>>(
            match_at(doc.list_number, pieces, at, purpose, i),
        ),
{
    let row = row_in(doc.list_number, pieces, i);
    let d1 = read_candidates(doc.after_lookup(at.buffer_id), at.buffer_id, ids).0;
    lemma_intact_chain(doc, d1, pieces);
    if pieces[i].coord.tombstone {
        if purpose is DeleteStart {
            lemma_clamp_forward(d1, pieces, row.id, i, 0);
            lemma_first_live(pieces, i);
        } else {
            lemma_clamp_backward(d1, pieces, row.id, i, 0);
            lemma_last_live(pieces, i + 1);
        }
        let d2 = clamp_walk(d1, row.id, row, purpose.clamp_direction(), 0).0;
        lemma_intact_then(doc, d1, d2);
        assert(intact(d2, resolve_coord(doc, at, purpose).0)) by {
            reveal(intact);
        }
        lemma_intact_then(doc, d2, resolve_coord(doc, at, purpose).0);
    }
}

/// A row of the document that lies in the buffer.
pub open spec fn lies_in<E>(doc: Doc<E>, buffer_id: i64, id: i64) -> bool {
    doc.at(id) matches Ok(row) && row.id == id && row.list_number == doc.list_number
        && row.coord.buffer_id == buffer_id && whole(row.coord)
}

/// A lookup finds rows of the buffer that have no byte in common, those of the
/// pieces among them.
pub open spec fn finds_apart<E>(doc: Doc<E>, pieces: Seq<Piece>, buffer_id: i64) -> bool {
    (doc.candidates)(buffer_id) matches Ok(ids) && {
        &&& ids.no_duplicates()
        &&& forall|k: int| 0 <= k < ids.len() ==> lies_in(doc, buffer_id, #[trigger] ids[k])
        &&& forall|k: int, l: int|
            0 <= k < l < ids.len() ==> apart(
                doc.at(#[trigger] ids[k])->Ok_0.coord,
                doc.at(#[trigger] ids[l])->Ok_0.coord,
            )
        &&& forall|j: int|
            0 <= j < pieces.len() && (#[trigger] pieces[j]).coord.buffer_id == buffer_id ==> ids.contains(
                pieces[j].id,
            )
    }
}

proof fn lemma_read_rows<E>(doc: Doc<E>, buffer_id: i64, ids: Seq<i64>)
    requires
        forall|k: int| 0 <= k < ids.len() ==> lies_in(doc, buffer_id, #[trigger] ids[k]),
    ensures
        intact(doc, read_candidates(doc, buffer_id, ids).0),
        read_candidates(doc, buffer_id, ids).1 matches Ok(rows) && rows.len() == ids.len() && forall|
            k: int,
        |
            0 <= k < ids.len() ==> Ok::<PieceRow, E>(#[trigger] rows[k]) == doc.at(ids[k]),
    decreases ids.len(),
{
    reveal(intact);
    if ids.len() > 0 {
        let rest = ids.drop_last();
        assert forall|k: int| 0 <= k < rest.len() implies lies_in(doc, buffer_id, #[trigger] rest[k]) by {
            assert(rest[k] == ids[k]);
        }
        lemma_read_rows(doc, buffer_id, rest);
        let d1 = read_candidates(doc, buffer_id, rest).0;
        assert(ids[ids.len() - 1] == ids.last());
        assert(d1.at(ids.last()) == doc.at(ids.last()));
    }
}

/// A coordinate behind the first byte of a live piece is found, even if the document
/// has rows beside the chain.
pub proof fn lemma_finds_among<E>(doc: Doc<E>, pieces: Seq<Piece>, at: BufferCoord)
    requires
        is_linked(doc, pieces),
        at != BufferCoord::document_start(),
        at.buffer_id > 0,
        finds_apart(doc, pieces, at.buffer_id),
        forall|i: int| #[trigger]
            anchors(pieces, at, i) ==> pieces[i].coord.start_byte < at.byte_pos
                && !pieces[i].coord.tombstone,
    ensures
        finds(doc, pieces, at),
{
    reveal(finds);
    let b = at.buffer_id;
    let ids = (doc.candidates)(b)->Ok_0;
    assert forall|d: Doc<E>, purpose: ResolvePurpose, i: int|
        intact(doc, d) && #[trigger] anchors(pieces, at, i) implies intact(
        d,
        (#[trigger] resolve_coord(d, at, purpose)).0,
    ) && resolve_coord(d, at, purpose).1 == Ok::<ResolveMatch, EditError<E>>(
        match_at(doc.list_number, pieces, at, purpose, i),
    ) by {
        lemma_intact_chain(doc, d, pieces);
        let d0 = d.after_lookup(b);
        assert(intact(d, d0)) by {
            reveal(intact);
        }
        assert forall|k: int| 0 <= k < ids.len() implies lies_in(d0, b, #[trigger] ids[k]) by {
            assert(lies_in(doc, b, ids[k]));
            assert(d0.at(ids[k]) == doc.at(ids[k]));
        }
        lemma_read_rows(d0, b, ids);
        let (d1, r1) = read_candidates(d0, b, ids);
        let rows = r1->Ok_0;
        lemma_intact_then(d, d0, d1);
        assert forall|k: int| 0 <= k < rows.len() implies Ok::<PieceRow, E>(#[trigger] rows[k]) == doc.at(
            ids[k],
        ) && lies_in(doc, b, ids[k]) by {
            assert(d0.at(ids[k]) == doc.at(ids[k]));
        }
        assert(rows_apart(rows)) by {
            assert forall|k: int, l: int| 0 <= k < l < rows.len() implies (#[trigger] rows[k]).id != (
            #[trigger] rows[l]).id && (rows[k].coord.end() <= rows[l].coord.start_byte
                || rows[l].coord.end() <= rows[k].coord.start_byte) by {
                assert(ids[k] != ids[l]);
                assert(apart(doc.at(ids[k])->Ok_0.coord, doc.at(ids[l])->Ok_0.coord));
            }
        }
        lemma_sorted_spans_apart(rows);
        lemma_no_overlap(sorted_spans(rows));
        lemma_matched_row(rows, at.byte_pos);
        lemma_read_piece(doc, pieces, i);
        let row = row_in(doc.list_number, pieces, i);
        assert(ids.contains(pieces[i].id));
        let m = choose|m: int| 0 <= m < ids.len() && ids[m] == pieces[i].id;
        assert(rows[m] == row);
        let found = matched_row(rows, at.byte_pos)->Some_0;
        assert(matched_row(rows, at.byte_pos) is Some);
        let k = choose|k: int| 0 <= k < rows.len() && rows[k] == found;
        assert(whole(rows[k].coord));
        assert(k == m) by {
            if k < m {
                assert(rows[k].id != rows[m].id);
            } else if m < k {
                assert(rows[m].id != rows[k].id);
            }
        }
        lemma_resolve_match(d, pieces, at, purpose, ids, rows, i);
    }
}

// ---------- steps and walks ----------

/// The row of the `i`-th piece, if the chain has so many.
pub open spec fn row_or_none(list_number: i64, pieces: Seq<Piece>, i: int) -> Option<PieceRow> {
    if 0 <= i < pieces.len() {
        Some(row_in(list_number, pieces, i))
    } else {
        None
    }
}

pub open spec fn id_or_none(pieces: Seq<Piece>, i: int) -> Option<i64> {
    if 0 <= i < pieces.len() {
        Some(pieces[i].id)
    } else {
        None
    }
}

proof fn lemma_intact_self<E>(doc: Doc<E>)
    ensures
        intact(doc, doc),
{
    reveal(intact);
}

pub proof fn lemma_step_forward<E>(doc: Doc<E>, pieces: Seq<Piece>, i: int)
    requires
        is_linked(doc, pieces),
        0 <= i < pieces.len(),
    ensures
        intact(doc, step_forward(doc, row_in(doc.list_number, pieces, i)).0),
        step_forward(doc, row_in(doc.list_number, pieces, i)).1 == Ok::<
            Option<PieceRow>,
            EditError<E>,
        >(row_or_none(doc.list_number, pieces, i + 1)),
{
    lemma_chain_ends(doc, pieces);
    lemma_intact_self(doc);
    if i + 1 < pieces.len() {
        lemma_read_piece(doc, pieces, i + 1);
    }
}

pub proof fn lemma_step_backward<E>(doc: Doc<E>, pieces: Seq<Piece>, i: int)
    requires
        is_linked(doc, pieces),
        0 <= i < pieces.len(),
    ensures
        intact(doc, step_backward(doc, row_in(doc.list_number, pieces, i)).0),
        step_backward(doc, row_in(doc.list_number, pieces, i)).1 == Ok::<
            Option<PieceRow>,
            EditError<E>,
        >(row_or_none(doc.list_number, pieces, i - 1)),
{
    lemma_chain_ends(doc, pieces);
    lemma_intact_self(doc);
    if i > 0 {
        lemma_read_piece(doc, pieces, i - 1);
    }
}

pub proof fn lemma_live_before<E>(
    doc: Doc<E>,
    pieces: Seq<Piece>,
    i: int,
    hops: int,
    cap: int,
    kind: WalkKind,
)
    requires
        is_linked(doc, pieces),
        0 <= i < pieces.len(),
        hops + i < cap,
    ensures
        intact(doc, live_before(doc, row_in(doc.list_number, pieces, i), hops, cap, kind).0),
        live_before(doc, row_in(doc.list_number, pieces, i), hops, cap, kind).1 == Ok::<
            Option<PieceRow>,
            EditError<E>,
        >(row_or_none(doc.list_number, pieces, last_live(pieces, i))),
    decreases i,
{
    let row = row_in(doc.list_number, pieces, i);
    lemma_step_backward(doc, pieces, i);
    if i > 0 {
        if pieces[i - 1].coord.tombstone {
            let d = step_backward(doc, row).0;
            lemma_intact_chain(doc, d, pieces);
            lemma_live_before(d, pieces, i - 1, hops + 1, cap, kind);
            lemma_intact_then(
                doc,
                d,
                live_before(d, row_in(doc.list_number, pieces, i - 1), hops + 1, cap, kind).0,
            );
        }
    }
}

pub proof fn lemma_live_after<E>(
    doc: Doc<E>,
    pieces: Seq<Piece>,
    i: int,
    hops: int,
    cap: int,
    kind: WalkKind,
)
    requires
        is_linked(doc, pieces),
        0 <= i < pieces.len(),
        hops + (pieces.len() - i) <= cap,
    ensures
        intact(doc, live_after(doc, row_in(doc.list_number, pieces, i), hops, cap, kind).0),
        live_after(doc, row_in(doc.list_number, pieces, i), hops, cap, kind).1 == Ok::<
            Option<PieceRow>,
            EditError<E>,
        >(row_or_none(doc.list_number, pieces, first_live(pieces, i + 1))),
    decreases pieces.len() - i,
{
    let row = row_in(doc.list_number, pieces, i);
    lemma_step_forward(doc, pieces, i);
    if i + 1 < pieces.len() {
        if pieces[i + 1].coord.tombstone {
            let d = step_forward(doc, row).0;
            lemma_intact_chain(doc, d, pieces);
            lemma_live_after(d, pieces, i + 1, hops + 1, cap, kind);
            lemma_intact_then(
                doc,
                d,
                live_after(d, row_in(doc.list_number, pieces, i + 1), hops + 1, cap, kind).0,
            );
        }
    }
}

proof fn lemma_live_from_head<E>(doc: Doc<E>, pieces: Seq<Piece>, i: int, hops: int, cap: int)
    requires
        is_linked(doc, pieces),
        0 <= i < pieces.len(),
        hops + (pieces.len() - i) <= cap,
    ensures
        intact(doc, live_from_head(doc, row_in(doc.list_number, pieces, i), hops, cap).0),
        live_from_head(doc, row_in(doc.list_number, pieces, i), hops, cap).1 == Ok::<
            Option<i64>,
            EditError<E>,
        >(id_or_none(pieces, first_live(pieces, i))),
    decreases pieces.len() - i,
{
    let row = row_in(doc.list_number, pieces, i);
    lemma_intact_self(doc);
    if pieces[i].coord.tombstone {
        assert(first_live(pieces, i) == first_live(pieces, i + 1));
        lemma_step_forward(doc, pieces, i);
        if i + 1 < pieces.len() {
            let d = step_forward(doc, row).0;
            lemma_intact_chain(doc, d, pieces);
            lemma_live_from_head(d, pieces, i + 1, hops + 1, cap);
            lemma_intact_then(
                doc,
                d,
                live_from_head(d, row_in(doc.list_number, pieces, i + 1), hops + 1, cap).0,
            );
        }
    }
}

proof fn lemma_live_from_tail<E>(doc: Doc<E>, pieces: Seq<Piece>, i: int, hops: int, cap: int)
    requires
        is_linked(doc, pieces),
        0 <= i < pieces.len(),
        hops + i < cap,
    ensures
        intact(doc, live_from_tail(doc, row_in(doc.list_number, pieces, i), hops, cap).0),
        live_from_tail(doc, row_in(doc.list_number, pieces, i), hops, cap).1 == Ok::<
            Option<i64>,
            EditError<E>,
        >(id_or_none(pieces, last_live(pieces, i + 1))),
    decreases i,
{
    let row = row_in(doc.list_number, pieces, i);
    lemma_intact_self(doc);
    if pieces[i].coord.tombstone {
        assert(last_live(pieces, i + 1) == last_live(pieces, i));
        lemma_step_backward(doc, pieces, i);
        if i > 0 {
            let d = step_backward(doc, row).0;
            lemma_intact_chain(doc, d, pieces);
            lemma_live_from_tail(d, pieces, i - 1, hops + 1, cap);
            lemma_intact_then(
                doc,
                d,
                live_from_tail(d, row_in(doc.list_number, pieces, i - 1), hops + 1, cap).0,
            );
        }
    }
}

pub proof fn lemma_first_live_row<E>(doc: Doc<E>, pieces: Seq<Piece>)
    requires
        is_linked(doc, pieces),
    ensures
        intact(doc, first_live_row(doc).0),
        first_live_row(doc).1 == Ok::<Option<i64>, EditError<E>>(
            id_or_none(pieces, first_live(pieces, 0)),
        ),
{
    lemma_chain_ends(doc, pieces);
    lemma_chain_len(doc, pieces);
    lemma_intact_self(doc);
    if pieces.len() > 0 {
        lemma_read_piece(doc, pieces, 0);
        let d = doc.read(pieces[0].id).0;
        lemma_live_from_head(d, pieces, 0, 0, doc.next_piece_id as int);
        lemma_intact_then(doc, d, first_live_row(doc).0);
    }
}

pub proof fn lemma_last_live_row<E>(doc: Doc<E>, pieces: Seq<Piece>)
    requires
        is_linked(doc, pieces),
    ensures
        intact(doc, last_live_row(doc).0),
        last_live_row(doc).1 == Ok::<Option<i64>, EditError<E>>(
            id_or_none(pieces, last_live(pieces, pieces.len() as int)),
        ),
{
    lemma_chain_ends(doc, pieces);
    lemma_chain_len(doc, pieces);
    lemma_intact_self(doc);
    if pieces.len() > 0 {
        let n = pieces.len() - 1;
        lemma_read_piece(doc, pieces, n);
        let d = doc.read(pieces[n].id).0;
        lemma_live_from_tail(d, pieces, n, 0, doc.next_piece_id as int);
        lemma_intact_then(doc, d, last_live_row(doc).0);
    }
}

pub proof fn lemma_ids_differ<E>(doc: Doc<E>, pieces: Seq<Piece>, i: int, j: int)
    requires
        is_linked(doc, pieces),
        0 <= i < pieces.len(),
        0 <= j < pieces.len(),
        i != j,
    ensures
        pieces[i].id != pieces[j].id,
{
    reveal(is_linked);
    if i < j {
        assert(pieces[i].id != pieces[j].id);
    } else {
        assert(pieces[j].id != pieces[i].id);
    }
}

proof fn lemma_reaches<E>(doc: Doc<E>, pieces: Seq<Piece>, i: int, j: int, hops: int, cap: int)
    requires
        is_linked(doc, pieces),
        0 <= i < pieces.len(),
        0 <= j < pieces.len(),
        hops + (pieces.len() - i) <= cap,
    ensures
        intact(doc, reaches(doc, row_in(doc.list_number, pieces, i), pieces[j].id, hops, cap).0),
        reaches(doc, row_in(doc.list_number, pieces, i), pieces[j].id, hops, cap).1 == Ok::<
            bool,
            EditError<E>,
        >(i < j),
    decreases pieces.len() - i,
{
    let row = row_in(doc.list_number, pieces, i);
    lemma_step_forward(doc, pieces, i);
    if i + 1 < pieces.len() && i + 1 != j {
        lemma_ids_differ(doc, pieces, i + 1, j);
        let d = step_forward(doc, row).0;
        lemma_intact_chain(doc, d, pieces);
        lemma_reaches(d, pieces, i + 1, j, hops + 1, cap);
        lemma_intact_then(
            doc,
            d,
            reaches(d, row_in(doc.list_number, pieces, i + 1), pieces[j].id, hops + 1, cap).0,
        );
    }
}

pub proof fn lemma_precedes<E>(doc: Doc<E>, pieces: Seq<Piece>, i: int, j: int)
    requires
        is_linked(doc, pieces),
        0 <= i < pieces.len(),
        0 <= j < pieces.len(),
    ensures
        intact(doc, precedes(doc, pieces[i].id, pieces[j].id).0),
        precedes(doc, pieces[i].id, pieces[j].id).1 == Ok::<bool, EditError<E>>(i < j),
{
    lemma_chain_len(doc, pieces);
    lemma_read_piece(doc, pieces, i);
    let d = doc.read(pieces[i].id).0;
    lemma_reaches(d, pieces, i, j, 0, doc.next_piece_id as int);
    lemma_intact_then(doc, d, precedes(doc, pieces[i].id, pieces[j].id).0);
}

} // verus!
