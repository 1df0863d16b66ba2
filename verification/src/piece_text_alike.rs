//! Documents that hold the same, however they are read.
//!
//! Two documents are alike if they have the same rows, ends and free ids, and the
//! same rows in every buffer, in whatever order. Errors, and what was read so far,
//! may differ. An edit of two such documents goes through on both or on neither,
//! and leaves them alike.

use vstd::prelude::*;

use crate::faults::WalkKind;
use crate::piece_text::{BufferCoord, PieceCoord};
use crate::piece_text_chain_walks::{lemma_overlap, rows_apart};
use crate::piece_text_edit::{
    canonical_pos, cut_row, delete_between, delete_edges, delete_end, delete_first, delete_in_row,
    delete_last, delete_range, delete_rows, delete_start, delete_text, edge_row_id, first_edge,
    first_live_row, insert_after, insert_at_head, insert_piece, insert_splice, is_extreme,
    last_edge, last_live_row, left_part, lemma_resolve_only_reads, live_after, live_before,
    live_from_head, live_from_tail, new_head, only_read, position_order, precedes, reaches,
    relink_next, resolve_coord, right_part, shorten_and_link, split_row, step_backward,
    step_forward, tombstone_row, DeletePos, EdgeRow, InsertSplice, PosOrder, ResolveMatch,
};
use crate::piece_text_edit_writes::lemma_same_changes;
use crate::piece_text_net_changes::{lemma_call_settled, row_settled, settled, StoreCall};
use crate::piece_text_planner::{ClampDirection, PieceRow, ResolvePurpose};
use crate::piece_text_resolution::{
    candidate_fault, clamp_step_fault, clamp_walk, end_towards, lemma_matched_row, matched_row,
    neighbour, read_candidates, Doc, EditError,
};
use crate::piece_text_staging::row_change;

verus! {

/// Both succeed with the same, or both fail.
pub open spec fn same_outcome<T, A, B>(a: Result<T, A>, b: Result<T, B>) -> bool {
    match (a, b) {
        (Ok(x), Ok(y)) => x == y,
        (Err(_), Err(_)) => true,
        _ => false,
    }
}

/// A row is there with the same value, or is not there; before the edit too.
pub open spec fn same_row<A, B>(a: Doc<A>, b: Doc<B>, id: i64) -> bool {
    &&& same_outcome(a.at(id), b.at(id))
    &&& same_outcome((a.base)(id), (b.base)(id))
    &&& a.at(id) is Ok ==> id < a.next_piece_id
}

/// The rows are found under the buffer in some order, each once; all are there
/// and lie in the buffer.
pub open spec fn same_candidates<A, B>(a: Doc<A>, b: Doc<B>, buffer_id: i64) -> bool {
    match ((a.candidates)(buffer_id), (b.candidates)(buffer_id)) {
        (Ok(x), Ok(y)) => {
            &&& x.no_duplicates()
            &&& y.no_duplicates()
            &&& forall|id: i64|
                #![trigger x.contains(id)]
                #![trigger y.contains(id)]
                x.contains(id) <==> y.contains(id)
            &&& forall|id: i64| #[trigger]
                x.contains(id) ==> (a.at(id) matches Ok(row) && row.coord.buffer_id == buffer_id)
        },
        _ => false,
    }
}

/// The documents hold the same.
pub open spec fn alike<A, B>(a: Doc<A>, b: Doc<B>) -> bool {
    &&& a.list_number == b.list_number
    &&& a.next_piece_id == b.next_piece_id
    &&& a.new_ids == b.new_ids
    &&& a.head is Ok && b.head is Ok && a.head_id() == b.head_id()
    &&& a.tail is Ok && b.tail is Ok && a.tail_id() == b.tail_id()
    &&& settled(a)
    &&& settled(b)
    &&& forall|id: i64| #[trigger] same_row(a, b, id)
    &&& forall|buffer_id: i64| buffer_id > 0 ==> #[trigger] same_candidates(a, b, buffer_id)
}

/// What was done comes to the same on both, and leaves the documents alike.
pub open spec fn same_run<T, A, B>(
    a: (Doc<A>, Result<T, EditError<A>>),
    b: (Doc<B>, Result<T, EditError<B>>),
) -> bool {
    alike(a.0, b.0) && same_outcome(a.1, b.1)
}

// ---------- reads ----------

proof fn lemma_only_read_settled<E>(doc: Doc<E>, d: Doc<E>)
    requires
        settled(doc),
        only_read(doc, d),
    ensures
        settled(d),
{
    assert forall|id: i64| #[trigger] row_settled(d, id) by {
        assert(row_settled(doc, id));
        assert((doc.base)(id) matches Ok(row) ==> row.id == id);
        assert(d.at(id) == doc.at(id));
        assert(d.loaded.contains(id) ==> doc.loaded.contains(id) || doc.at(id) is Ok);
    }
    assert forall|id: i64| (#[trigger] (d.base)(id)) is Ok implies (d.base)(id)->Ok_0.id == id by {
        assert((doc.base)(id) == (d.base)(id));
    }
}

/// Documents that were only read stay alike.
proof fn lemma_reads<A, B>(a: Doc<A>, b: Doc<B>, c: Doc<A>, d: Doc<B>)
    requires
        alike(a, b),
        only_read(a, c),
        only_read(b, d),
    ensures
        alike(c, d),
{
    lemma_only_read_settled(a, c);
    lemma_only_read_settled(b, d);
    assert forall|id: i64| #[trigger] same_row(c, d, id) by {
        assert(same_row(a, b, id));
    }
    assert forall|buffer_id: i64| buffer_id > 0 implies #[trigger] same_candidates(c, d, buffer_id) by {
        assert(same_candidates(a, b, buffer_id));
        if let Ok(x) = (a.candidates)(buffer_id) {
            assert forall|id: i64| #[trigger] x.contains(id) implies (c.at(id) matches Ok(row)
                && row.coord.buffer_id == buffer_id) by {
                assert(c.at(id) == a.at(id));
            }
        }
    }
}

proof fn lemma_read<A, B>(a: Doc<A>, b: Doc<B>, id: i64)
    requires
        alike(a, b),
    ensures
        same_run(a.read(id), b.read(id)),
{
    assert(same_row(a, b, id));
    lemma_reads(a, b, a.after_read(id), b.after_read(id));
}

/// A row that is there has its own id.
proof fn lemma_own_id<A, B>(a: Doc<A>, b: Doc<B>, id: i64)
    requires
        alike(a, b),
    ensures
        a.at(id) matches Ok(row) ==> row.id == id,
        b.at(id) matches Ok(row) ==> row.id == id,
{
    assert(row_settled(a, id));
    assert(same_row(a, b, id));
    assert((a.base)(id) matches Ok(row) ==> row.id == id);
}

// ---------- writes ----------

/// A change of a row that leaves it in its buffer.
proof fn lemma_change<A, B>(a: Doc<A>, b: Doc<B>, row: PieceRow)
    requires
        alike(a, b),
        a.at(row.id) matches Ok(was) && was.coord.buffer_id == row.coord.buffer_id,
        settled(a.after_read(row.id).with_row(row)),
        settled(b.after_read(row.id).with_row(row)),
    ensures
        alike(a.after_read(row.id).with_row(row), b.after_read(row.id).with_row(row)),
{
    let c = a.after_read(row.id).with_row(row);
    let d = b.after_read(row.id).with_row(row);
    assert(same_row(a, b, row.id));
    assert forall|id: i64| #[trigger] same_row(c, d, id) by {
        assert(same_row(a, b, id));
    }
    assert forall|buffer_id: i64| buffer_id > 0 implies #[trigger] same_candidates(c, d, buffer_id) by {
        assert(same_candidates(a, b, buffer_id));
        if let Ok(x) = (a.candidates)(buffer_id) {
            assert forall|id: i64| #[trigger] x.contains(id) implies (c.at(id) matches Ok(now)
                && now.coord.buffer_id == buffer_id) by {
                if id != row.id {
                    assert(c.at(id) == a.at(id));
                }
            }
        }
    }
}

proof fn lemma_set_prev<A, B>(a: Doc<A>, b: Doc<B>, id: i64, prev_id: i64)
    requires
        alike(a, b),
    ensures
        same_run(a.set_prev(id, prev_id), b.set_prev(id, prev_id)),
{
    lemma_read(a, b, id);
    lemma_own_id(a, b, id);
    assert(same_row(a, b, id));
    if let Ok(row) = a.at(id) {
        let call = StoreCall::SetPrev { row_id: id, prev_id };
        lemma_call_settled(a, call);
        lemma_call_settled(b, call);
        lemma_change(a, b, PieceRow { prev_id, ..row });
    }
}

proof fn lemma_set_next<A, B>(a: Doc<A>, b: Doc<B>, id: i64, next_id: i64)
    requires
        alike(a, b),
    ensures
        same_run(a.set_next(id, next_id), b.set_next(id, next_id)),
{
    lemma_read(a, b, id);
    lemma_own_id(a, b, id);
    assert(same_row(a, b, id));
    if let Ok(row) = a.at(id) {
        let call = StoreCall::SetNext { row_id: id, next_id };
        lemma_call_settled(a, call);
        lemma_call_settled(b, call);
        lemma_change(a, b, PieceRow { next_id, ..row });
    }
}

proof fn lemma_set_coord<A, B>(a: Doc<A>, b: Doc<B>, id: i64, coord: PieceCoord)
    requires
        alike(a, b),
        a.at(id) matches Ok(row) ==> row.coord.buffer_id == coord.buffer_id,
    ensures
        same_run(a.set_coord(id, coord), b.set_coord(id, coord)),
{
    lemma_read(a, b, id);
    lemma_own_id(a, b, id);
    assert(same_row(a, b, id));
    if let Ok(row) = a.at(id) {
        let call = StoreCall::SetCoord { row_id: id, coord };
        lemma_call_settled(a, call);
        lemma_call_settled(b, call);
        lemma_change(a, b, PieceRow { coord, ..row });
    }
}

proof fn lemma_ends<A, B>(a: Doc<A>, b: Doc<B>, c: Doc<A>, d: Doc<B>)
    requires
        alike(a, b),
        c == (Doc { head: c.head, tail: c.tail, ..a }),
        d == (Doc { head: d.head, tail: d.tail, ..b }),
        c.head is Ok && d.head is Ok && c.head_id() == d.head_id(),
        c.tail is Ok && d.tail is Ok && c.tail_id() == d.tail_id(),
    ensures
        alike(c, d),
{
    assert forall|id: i64| #[trigger] row_settled(c, id) by {
        assert(row_settled(a, id));
    }
    assert forall|id: i64| #[trigger] row_settled(d, id) by {
        assert(row_settled(b, id));
    }
    assert forall|id: i64| #[trigger] same_row(c, d, id) by {
        assert(same_row(a, b, id));
    }
    assert forall|buffer_id: i64| buffer_id > 0 implies #[trigger] same_candidates(c, d, buffer_id) by {
        assert(same_candidates(a, b, buffer_id));
        if let Ok(x) = (a.candidates)(buffer_id) {
            assert forall|id: i64| #[trigger] x.contains(id) implies (c.at(id) matches Ok(row)
                && row.coord.buffer_id == buffer_id) by {
                assert(c.at(id) == a.at(id));
            }
        }
    }
}

/// The next free id is that of no row.
proof fn lemma_alloc<A, B>(a: Doc<A>, b: Doc<B>)
    requires
        alike(a, b),
    ensures
        same_run(a.alloc_piece_id(), b.alloc_piece_id()),
        a.alloc_piece_id().1 matches Ok(id) ==> a.at(id) is Err && id < a.alloc_piece_id().0.next_piece_id,
        a.alloc_piece_id().0.row == a.row,
        b.alloc_piece_id().0.row == b.row,
{
    let c = a.alloc_piece_id().0;
    let d = b.alloc_piece_id().0;
    assert(same_row(a, b, a.next_piece_id));
    assert forall|id: i64| #[trigger] row_settled(c, id) by {
        assert(row_settled(a, id));
    }
    assert forall|id: i64| #[trigger] row_settled(d, id) by {
        assert(row_settled(b, id));
    }
    assert forall|id: i64| #[trigger] same_row(c, d, id) by {
        assert(same_row(a, b, id));
    }
    assert forall|buffer_id: i64| buffer_id > 0 implies #[trigger] same_candidates(c, d, buffer_id) by {
        assert(same_candidates(a, b, buffer_id));
        if let Ok(x) = (a.candidates)(buffer_id) {
            assert forall|id: i64| #[trigger] x.contains(id) implies (c.at(id) matches Ok(row)
                && row.coord.buffer_id == buffer_id) by {
                assert(c.at(id) == a.at(id));
            }
        }
    }
}

proof fn lemma_push_contains(ids: Seq<i64>, id: i64, x: i64)
    ensures
        ids.push(id).contains(x) <==> ids.contains(x) || x == id,
{
    assert(ids.push(id)[ids.len() as int] == id);
    if ids.contains(x) {
        let i = choose|i: int| 0 <= i < ids.len() && ids[i] == x;
        assert(ids.push(id)[i] == x);
    }
}

/// A new row under an id that no row has.
proof fn lemma_insert_row<A, B>(a: Doc<A>, b: Doc<B>, id: i64, prev_id: i64, next_id: i64, coord: PieceCoord)
    requires
        alike(a, b),
        a.at(id) is Err,
        id < a.next_piece_id,
    ensures
        same_run(a.insert_new_row(id, prev_id, next_id, coord), b.insert_new_row(id, prev_id, next_id, coord)),
        forall|x: i64|
            x != id ==> #[trigger] a.insert_new_row(id, prev_id, next_id, coord).0.at(x) == a.at(x),
{
    assert(same_row(a, b, id));
    assert(row_settled(a, id));
    assert(row_settled(b, id));
    if id > 0 {
        let call = StoreCall::InsertNewRow { row_id: id, prev_id, next_id, coord };
        let c = a.insert_new_row(id, prev_id, next_id, coord).0;
        let d = b.insert_new_row(id, prev_id, next_id, coord).0;
        lemma_call_settled(a, call);
        lemma_call_settled(b, call);
        assert forall|x: i64| #[trigger] same_row(c, d, x) by {
            assert(same_row(a, b, x));
        }
        assert forall|buffer_id: i64| buffer_id > 0 implies #[trigger] same_candidates(c, d, buffer_id) by {
            assert(same_candidates(a, b, buffer_id));
            let x = (a.candidates)(buffer_id)->Ok_0;
            let y = (b.candidates)(buffer_id)->Ok_0;
            assert(!x.contains(id) && !y.contains(id));
            assert forall|i: i64| #[trigger] x.contains(i) implies c.at(i) == a.at(i) by {
                assert(i != id);
            }
            if buffer_id == coord.buffer_id {
                assert forall|i: i64| #[trigger]
                    x.push(id).contains(i) <==> x.contains(i) || i == id by {
                    lemma_push_contains(x, id, i);
                }
                assert forall|i: i64| #[trigger]
                    y.push(id).contains(i) <==> y.contains(i) || i == id by {
                    lemma_push_contains(y, id, i);
                }
                assert(x.push(id).no_duplicates()) by {
                    assert forall|i: int| 0 <= i < x.len() implies #[trigger] x[i] != id by {
                        assert(x.contains(x[i]));
                    }
                }
                assert(y.push(id).no_duplicates()) by {
                    assert forall|i: int| 0 <= i < y.len() implies #[trigger] y[i] != id by {
                        assert(y.contains(y[i]));
                    }
                }
                assert((c.candidates)(buffer_id) == Ok::<Seq<i64>, A>(x.push(id)));
                assert((d.candidates)(buffer_id) == Ok::<Seq<i64>, B>(y.push(id)));
            } else {
                assert((c.candidates)(buffer_id) == Ok::<Seq<i64>, A>(x));
                assert((d.candidates)(buffer_id) == Ok::<Seq<i64>, B>(y));
            }
        }
    }
}

// ---------- steps along the chain ----------

proof fn lemma_step_forward<A, B>(a: Doc<A>, b: Doc<B>, row: PieceRow)
    requires
        alike(a, b),
    ensures
        same_run(step_forward(a, row), step_forward(b, row)),
        step_forward(a, row).0.row == a.row,
{
    if row.next_id != 0 {
        lemma_read(a, b, row.next_id);
    }
}

proof fn lemma_step_backward<A, B>(a: Doc<A>, b: Doc<B>, row: PieceRow)
    requires
        alike(a, b),
    ensures
        same_run(step_backward(a, row), step_backward(b, row)),
        step_backward(a, row).0.row == a.row,
{
    if row.prev_id != 0 {
        lemma_read(a, b, row.prev_id);
    }
}

proof fn lemma_live_before<A, B>(a: Doc<A>, b: Doc<B>, row: PieceRow, hops: int, cap: int, kind: WalkKind)
    requires
        alike(a, b),
    ensures
        same_run(live_before(a, row, hops, cap, kind), live_before(b, row, hops, cap, kind)),
    decreases cap - hops,
{
    lemma_step_backward(a, b, row);
    let (c, r) = step_backward(a, row);
    let d = step_backward(b, row).0;
    if let Ok(Some(prev)) = r {
        if prev.coord.tombstone && hops + 1 <= cap {
            lemma_live_before(c, d, prev, hops + 1, cap, kind);
        }
    }
}

proof fn lemma_live_after<A, B>(a: Doc<A>, b: Doc<B>, row: PieceRow, hops: int, cap: int, kind: WalkKind)
    requires
        alike(a, b),
    ensures
        same_run(live_after(a, row, hops, cap, kind), live_after(b, row, hops, cap, kind)),
    decreases cap - hops,
{
    lemma_step_forward(a, b, row);
    let (c, r) = step_forward(a, row);
    let d = step_forward(b, row).0;
    if let Ok(Some(next)) = r {
        if next.coord.tombstone && hops + 1 <= cap {
            lemma_live_after(c, d, next, hops + 1, cap, kind);
        }
    }
}

proof fn lemma_live_from_head<A, B>(a: Doc<A>, b: Doc<B>, row: PieceRow, hops: int, cap: int)
    requires
        alike(a, b),
    ensures
        same_run(live_from_head(a, row, hops, cap), live_from_head(b, row, hops, cap)),
    decreases cap - hops,
{
    if row.coord.tombstone {
        lemma_step_forward(a, b, row);
        let (c, r) = step_forward(a, row);
        let d = step_forward(b, row).0;
        if let Ok(Some(next)) = r {
            if hops + 1 <= cap {
                lemma_live_from_head(c, d, next, hops + 1, cap);
            }
        }
    }
}

proof fn lemma_live_from_tail<A, B>(a: Doc<A>, b: Doc<B>, row: PieceRow, hops: int, cap: int)
    requires
        alike(a, b),
    ensures
        same_run(live_from_tail(a, row, hops, cap), live_from_tail(b, row, hops, cap)),
    decreases cap - hops,
{
    if row.coord.tombstone {
        lemma_step_backward(a, b, row);
        let (c, r) = step_backward(a, row);
        let d = step_backward(b, row).0;
        if let Ok(Some(next)) = r {
            if hops + 1 <= cap {
                lemma_live_from_tail(c, d, next, hops + 1, cap);
            }
        }
    }
}

proof fn lemma_live_ends<A, B>(a: Doc<A>, b: Doc<B>)
    requires
        alike(a, b),
    ensures
        same_run(first_live_row(a), first_live_row(b)),
        same_run(last_live_row(a), last_live_row(b)),
{
    let cap = a.next_piece_id as int;
    lemma_read(a, b, a.head_id());
    if let Ok(row) = a.read(a.head_id()).1 {
        lemma_live_from_head(a.read(a.head_id()).0, b.read(a.head_id()).0, row, 0, cap);
    }
    lemma_read(a, b, a.tail_id());
    if let Ok(row) = a.read(a.tail_id()).1 {
        lemma_live_from_tail(a.read(a.tail_id()).0, b.read(a.tail_id()).0, row, 0, cap);
    }
}

proof fn lemma_reaches<A, B>(a: Doc<A>, b: Doc<B>, row: PieceRow, target: i64, hops: int, cap: int)
    requires
        alike(a, b),
    ensures
        same_run(reaches(a, row, target, hops, cap), reaches(b, row, target, hops, cap)),
    decreases cap - hops,
{
    lemma_step_forward(a, b, row);
    let (c, r) = step_forward(a, row);
    let d = step_forward(b, row).0;
    if let Ok(Some(next)) = r {
        if next.id != target && hops + 1 <= cap {
            lemma_reaches(c, d, next, target, hops + 1, cap);
        }
    }
}

proof fn lemma_precedes<A, B>(a: Doc<A>, b: Doc<B>, first: i64, second: i64)
    requires
        alike(a, b),
    ensures
        same_run(precedes(a, first, second), precedes(b, first, second)),
{
    lemma_read(a, b, first);
    let (c, r) = a.read(first);
    if let Ok(row) = r {
        lemma_reaches(c, b.read(first).0, row, second, 0, a.next_piece_id as int);
    }
}

proof fn lemma_canonical_pos<A, B>(a: Doc<A>, b: Doc<B>, row_id: i64, k: u32)
    requires
        alike(a, b),
    ensures
        same_run(canonical_pos(a, row_id, k), canonical_pos(b, row_id, k)),
{
    lemma_read(a, b, row_id);
    let (c, r) = a.read(row_id);
    let d = b.read(row_id).0;
    let cap = a.next_piece_id as int;
    if let Ok(row) = r {
        lemma_live_before(c, d, row, 0, cap, WalkKind::Canonical);
        lemma_live_after(c, d, row, 0, cap, WalkKind::Canonical);
    }
}

// ---------- coordinates ----------

proof fn lemma_clamp_walk<A, B>(
    a: Doc<A>,
    b: Doc<B>,
    start_row_id: i64,
    current: PieceRow,
    direction: ClampDirection,
    hops: u32,
)
    requires
        alike(a, b),
    ensures
        same_run(
            clamp_walk(a, start_row_id, current, direction, hops),
            clamp_walk(b, start_row_id, current, direction, hops),
        ),
    decreases u32::MAX - hops,
{
    if current.coord.tombstone && hops < u32::MAX {
        let id = neighbour(current, direction);
        if id == 0 {
            lemma_reads(
                a,
                b,
                a.after_endpoint(end_towards(direction)),
                b.after_endpoint(end_towards(direction)),
            );
        } else {
            lemma_read(a, b, id);
            let (c, r) = a.read(id);
            if let Ok(next) = r {
                if clamp_step_fault(a.list_number, current, next, direction) is None {
                    lemma_clamp_walk(c, b.read(id).0, start_row_id, next, direction, (hops + 1) as u32);
                }
            }
        }
    }
}

/// A row that is there and fit to be found under the buffer.
spec fn fits<E>(doc: Doc<E>, buffer_id: i64, id: i64) -> bool {
    doc.at(id) matches Ok(row) && candidate_fault(doc.list_number, buffer_id, row) is None
}

/// The rows found under a buffer are read if all of them are fit.
proof fn lemma_candidates<E>(doc: Doc<E>, buffer_id: i64, ids: Seq<i64>)
    ensures
        ({
            let (d, r) = read_candidates(doc, buffer_id, ids);
            &&& only_read(doc, d)
            &&& r is Ok <==> forall|i: int| 0 <= i < ids.len() ==> #[trigger] fits(doc, buffer_id, ids[i])
            &&& r matches Ok(rows) ==> {
                &&& rows.len() == ids.len()
                &&& forall|i: int|
                    0 <= i < rows.len() ==> doc.at(ids[i]) == Ok::<PieceRow, E>(#[trigger] rows[i])
            }
        }),
    decreases ids.len(),
{
    if ids.len() > 0 {
        let rest = ids.drop_last();
        lemma_candidates(doc, buffer_id, rest);
        let (d1, r1) = read_candidates(doc, buffer_id, rest);
        let (d, r) = read_candidates(doc, buffer_id, ids);
        assert(d1.at(ids.last()) == doc.at(ids.last()));
        if r1 is Ok {
            assert(r is Ok <==> fits(doc, buffer_id, ids[ids.len() - 1]));
            assert forall|i: int| 0 <= i < rest.len() implies #[trigger] fits(doc, buffer_id, ids[i]) by {
                assert(fits(doc, buffer_id, rest[i]));
            }
        } else {
            let i = choose|i: int| 0 <= i < rest.len() && !#[trigger] fits(doc, buffer_id, rest[i]);
            assert(!fits(doc, buffer_id, ids[i]));
        }
        if let Ok(rows) = r {
            let before = r1->Ok_0;
            assert forall|i: int| 0 <= i < rows.len() implies doc.at(ids[i]) == Ok::<PieceRow, E>(
                #[trigger] rows[i],
            ) by {
                if i < rest.len() {
                    assert(rows[i] == before[i]);
                    assert(rest[i] == ids[i]);
                }
            }
        }
    }
}

/// Rows in two orders.
spec fn same_rows(x: Seq<PieceRow>, y: Seq<PieceRow>) -> bool {
    &&& forall|r: PieceRow|
        #![trigger x.contains(r)]
        #![trigger y.contains(r)]
        x.contains(r) <==> y.contains(r)
    &&& forall|k: int, l: int| 0 <= k < l < x.len() ==> (#[trigger] x[k]).id != (#[trigger] x[l]).id
    &&& forall|k: int, l: int| 0 <= k < l < y.len() ==> (#[trigger] y[k]).id != (#[trigger] y[l]).id
}

proof fn lemma_apart_in_any_order(x: Seq<PieceRow>, y: Seq<PieceRow>)
    requires
        same_rows(x, y),
        rows_apart(x),
    ensures
        rows_apart(y),
{
    assert forall|k: int| 0 <= k < y.len() implies (#[trigger] y[k]).coord.len_bytes > 0 && y[k].coord.end()
        <= u32::MAX by {
        assert(y.contains(y[k]));
    }
    assert forall|k: int, l: int| 0 <= k < l < y.len() implies (#[trigger] y[k]).id != (#[trigger] y[l]).id
        && (y[k].coord.end() <= y[l].coord.start_byte || y[l].coord.end() <= y[k].coord.start_byte) by {
        assert(y.contains(y[k]) && y.contains(y[l]));
        let i = choose|i: int| 0 <= i < x.len() && x[i] == y[k];
        let j = choose|j: int| 0 <= j < x.len() && x[j] == y[l];
        assert(x[i].id != x[j].id);
    }
}

/// Among rows that lie apart, one at most is that of a byte.
proof fn lemma_one_match(x: Seq<PieceRow>, y: Seq<PieceRow>, byte_pos: u32)
    requires
        same_rows(x, y),
        rows_apart(x),
    ensures
        matched_row(x, byte_pos) == matched_row(y, byte_pos),
{
    lemma_matched_row(x, byte_pos);
    lemma_matched_row(y, byte_pos);
    match (matched_row(x, byte_pos), matched_row(y, byte_pos)) {
        (Some(r), Some(q)) => {
            assert(x.contains(q) && y.contains(r));
            let i = choose|i: int| 0 <= i < x.len() && x[i] == r;
            let j = choose|j: int| 0 <= j < x.len() && x[j] == q;
            let k = choose|k: int| 0 <= k < y.len() && y[k] == r;
            assert(y[k].coord.end() == r.coord.end());
            if i < j {
                assert(x[i].coord.end() <= x[j].coord.start_byte || x[j].coord.end()
                    <= x[i].coord.start_byte);
            } else if j < i {
                assert(x[j].coord.end() <= x[i].coord.start_byte || x[i].coord.end()
                    <= x[j].coord.start_byte);
            }
        },
        (Some(r), None) => {
            assert(y.contains(r));
        },
        (None, Some(q)) => {
            assert(x.contains(q));
        },
        (None, None) => {},
    }
}

/// The rows found under a buffer are the same, in some order.
proof fn lemma_same_rows<A, B>(a: Doc<A>, b: Doc<B>, buffer_id: i64, x: Seq<PieceRow>, y: Seq<PieceRow>)
    requires
        alike(a, b),
        buffer_id > 0,
        x.len() == (a.candidates)(buffer_id)->Ok_0.len(),
        y.len() == (b.candidates)(buffer_id)->Ok_0.len(),
        forall|i: int|
            0 <= i < x.len() ==> a.at((a.candidates)(buffer_id)->Ok_0[i]) == Ok::<PieceRow, A>(
                #[trigger] x[i],
            ),
        forall|i: int|
            0 <= i < y.len() ==> b.at((b.candidates)(buffer_id)->Ok_0[i]) == Ok::<PieceRow, B>(
                #[trigger] y[i],
            ),
    ensures
        same_rows(x, y),
{
    assert(same_candidates(a, b, buffer_id));
    let ids = (a.candidates)(buffer_id)->Ok_0;
    let others = (b.candidates)(buffer_id)->Ok_0;
    assert forall|k: int| 0 <= k < x.len() implies (#[trigger] x[k]).id == ids[k] by {
        lemma_own_id(a, b, ids[k]);
    }
    assert forall|k: int| 0 <= k < y.len() implies (#[trigger] y[k]).id == others[k] by {
        lemma_own_id(a, b, others[k]);
    }
    assert forall|r: PieceRow|
        #![trigger x.contains(r)]
        #![trigger y.contains(r)]
        x.contains(r) <==> y.contains(r) by {
        if x.contains(r) {
            let i = choose|i: int| 0 <= i < x.len() && x[i] == r;
            assert(ids.contains(ids[i]));
            let j = choose|j: int| 0 <= j < others.len() && others[j] == ids[i];
            assert(same_row(a, b, ids[i]));
            assert(y[j] == r);
        }
        if y.contains(r) {
            let j = choose|j: int| 0 <= j < y.len() && y[j] == r;
            assert(others.contains(others[j]));
            let i = choose|i: int| 0 <= i < ids.len() && ids[i] == others[j];
            assert(same_row(a, b, others[j]));
            assert(x[i] == r);
        }
    }
}

/// The rows found under a buffer fit in both documents or in neither.
proof fn lemma_same_fit<A, B>(a: Doc<A>, b: Doc<B>, buffer_id: i64)
    requires
        alike(a, b),
        buffer_id > 0,
    ensures
        ({
            let ids = (a.candidates)(buffer_id)->Ok_0;
            let others = (b.candidates)(buffer_id)->Ok_0;
            (forall|i: int| 0 <= i < ids.len() ==> #[trigger] fits(a, buffer_id, ids[i])) <==> (forall|i: int|
                0 <= i < others.len() ==> #[trigger] fits(b, buffer_id, others[i]))
        }),
{
    assert(same_candidates(a, b, buffer_id));
    let ids = (a.candidates)(buffer_id)->Ok_0;
    let others = (b.candidates)(buffer_id)->Ok_0;
    if forall|i: int| 0 <= i < ids.len() ==> #[trigger] fits(a, buffer_id, ids[i]) {
        assert forall|i: int| 0 <= i < others.len() implies #[trigger] fits(b, buffer_id, others[i]) by {
            assert(others.contains(others[i]));
            let k = choose|k: int| 0 <= k < ids.len() && ids[k] == others[i];
            assert(fits(a, buffer_id, ids[k]));
            assert(same_row(a, b, ids[k]));
        }
    }
    if forall|i: int| 0 <= i < others.len() ==> #[trigger] fits(b, buffer_id, others[i]) {
        assert forall|i: int| 0 <= i < ids.len() implies #[trigger] fits(a, buffer_id, ids[i]) by {
            assert(ids.contains(ids[i]));
            let k = choose|k: int| 0 <= k < others.len() && others[k] == ids[i];
            assert(fits(b, buffer_id, others[k]));
            assert(same_row(a, b, ids[i]));
        }
    }
}

/// A coordinate lies at the same place in both.
proof fn lemma_resolve<A, B>(a: Doc<A>, b: Doc<B>, coord: BufferCoord, purpose: ResolvePurpose)
    requires
        alike(a, b),
    ensures
        same_run(resolve_coord(a, coord, purpose), resolve_coord(b, coord, purpose)),
        resolve_coord(a, coord, purpose).0.row == a.row,
        resolve_coord(a, coord, purpose).0.candidates == a.candidates,
        resolve_coord(b, coord, purpose).0.candidates == b.candidates,
        resolve_coord(a, coord, purpose).1 matches Ok(ResolveMatch::InRow { row, .. }) ==> a.at(row.id)
            == Ok::<PieceRow, A>(row),
{
    lemma_alike_ids(a, b);
    lemma_resolve_only_reads(a, coord, purpose);
    lemma_resolve_only_reads(b, coord, purpose);
    lemma_reads(a, b, resolve_coord(a, coord, purpose).0, resolve_coord(b, coord, purpose).0);
    if coord != BufferCoord::document_start() && coord.buffer_id > 0 {
        let buffer_id = coord.buffer_id;
        assert(same_candidates(a, b, buffer_id));
        let ids = (a.candidates)(buffer_id)->Ok_0;
        let others = (b.candidates)(buffer_id)->Ok_0;
        let c = a.after_lookup(buffer_id);
        let d = b.after_lookup(buffer_id);
        lemma_reads(a, b, c, d);
        lemma_candidates(c, buffer_id, ids);
        lemma_candidates(d, buffer_id, others);
        lemma_same_fit(c, d, buffer_id);
        let (e, r) = read_candidates(c, buffer_id, ids);
        let (f, q) = read_candidates(d, buffer_id, others);
        lemma_reads(c, d, e, f);
        if let Ok(x) = r {
            let y = q->Ok_0;
            lemma_same_rows(c, d, buffer_id, x, y);
            assert forall|k: int| 0 <= k < x.len() implies (#[trigger] x[k]).coord.len_bytes > 0
                && x[k].coord.end() <= u32::MAX by {
                assert(fits(c, buffer_id, ids[k]));
            }
            assert forall|k: int| 0 <= k < y.len() implies (#[trigger] y[k]).coord.len_bytes > 0
                && y[k].coord.end() <= u32::MAX by {
                assert(fits(d, buffer_id, others[k]));
            }
            lemma_overlap(buffer_id, x);
            lemma_overlap(buffer_id, y);
            if rows_apart(x) {
                lemma_apart_in_any_order(x, y);
                lemma_one_match(x, y, coord.byte_pos);
                if let Some(row) = matched_row(x, coord.byte_pos) {
                    lemma_clamp_walk(e, f, row.id, row, purpose.clamp_direction(), 0);
                }
            } else if rows_apart(y) {
                lemma_apart_in_any_order(y, x);
            }
        }
    }
}

/// In documents that are alike every row has its own id.
pub proof fn lemma_alike_ids<A, B>(a: Doc<A>, b: Doc<B>)
    requires
        alike(a, b),
    ensures
        a.ids_match(),
        b.ids_match(),
{
    assert forall|id: i64| (#[trigger] a.at(id)) is Ok implies a.at(id)->Ok_0.id == id by {
        lemma_own_id(a, b, id);
    }
    assert forall|id: i64| (#[trigger] b.at(id)) is Ok implies b.at(id)->Ok_0.id == id by {
        lemma_own_id(a, b, id);
    }
}

proof fn lemma_delete_start<A, B>(a: Doc<A>, b: Doc<B>, coord: BufferCoord)
    requires
        alike(a, b),
    ensures
        same_run(delete_start(a, coord), delete_start(b, coord)),
{
    lemma_resolve(a, b, coord, ResolvePurpose::DeleteStart);
    let (c, r) = resolve_coord(a, coord, ResolvePurpose::DeleteStart);
    let d = resolve_coord(b, coord, ResolvePurpose::DeleteStart).0;
    match r {
        Ok(ResolveMatch::AfterClamp { row_id }) => lemma_canonical_pos(c, d, row_id, 0),
        Ok(ResolveMatch::InRow { row, k }) => lemma_canonical_pos(c, d, row.id, k),
        _ => {},
    }
}

proof fn lemma_delete_end<A, B>(a: Doc<A>, b: Doc<B>, coord: BufferCoord)
    requires
        alike(a, b),
    ensures
        same_run(delete_end(a, coord), delete_end(b, coord)),
{
    lemma_resolve(a, b, coord, ResolvePurpose::DeleteEnd);
    let (c, r) = resolve_coord(a, coord, ResolvePurpose::DeleteEnd);
    let d = resolve_coord(b, coord, ResolvePurpose::DeleteEnd).0;
    match r {
        Ok(ResolveMatch::AfterClamp { row_id }) => {
            lemma_read(c, d, row_id);
            if let Ok(row) = c.read(row_id).1 {
                lemma_canonical_pos(c.read(row_id).0, d.read(row_id).0, row_id, row.coord.len_bytes);
            }
        },
        Ok(ResolveMatch::InRow { row, k }) => lemma_canonical_pos(c, d, row.id, k),
        _ => {},
    }
}

proof fn lemma_position_order<A, B>(a: Doc<A>, b: Doc<B>, from: DeletePos, to: DeletePos)
    requires
        alike(a, b),
    ensures
        same_run(position_order(a, from, to), position_order(b, from, to)),
{
    if is_extreme(from) && is_extreme(to) {
        lemma_live_ends(a, b);
    } else if let (DeletePos::InRow { row_id: r, .. }, DeletePos::InRow { row_id: q, .. }) = (from, to) {
        lemma_precedes(a, b, r, q);
    }
}

proof fn lemma_first_edge<A, B>(a: Doc<A>, b: Doc<B>, start: DeletePos)
    requires
        alike(a, b),
    ensures
        same_run(first_edge(a, start), first_edge(b, start)),
{
    match start {
        DeletePos::InRow { row_id, k } => {
            lemma_read(a, b, row_id);
            if let Ok(row) = a.read(row_id).1 {
                lemma_live_after(
                    a.read(row_id).0,
                    b.read(row_id).0,
                    row,
                    0,
                    a.next_piece_id as int,
                    WalkKind::NextLive,
                );
            }
        },
        DeletePos::BeforeHead => lemma_live_ends(a, b),
        DeletePos::AfterTail => {},
    }
}

proof fn lemma_last_edge<A, B>(a: Doc<A>, b: Doc<B>, end: DeletePos)
    requires
        alike(a, b),
    ensures
        same_run(last_edge(a, end), last_edge(b, end)),
{
    match end {
        DeletePos::InRow { row_id, .. } => lemma_read(a, b, row_id),
        DeletePos::AfterTail => lemma_live_ends(a, b),
        DeletePos::BeforeHead => {},
    }
}

// ---------- splices ----------

proof fn lemma_relink_next<A, B>(a: Doc<A>, b: Doc<B>, next_id: i64, row_id: i64)
    requires
        alike(a, b),
    ensures
        same_run(relink_next(a, next_id, row_id), relink_next(b, next_id, row_id)),
{
    if next_id == 0 {
        lemma_ends(a, b, a.set_tail(row_id), b.set_tail(row_id));
    } else {
        lemma_set_prev(a, b, next_id, row_id);
    }
}

proof fn lemma_shorten_and_link<A, B>(
    a: Doc<A>,
    b: Doc<B>,
    row: PieceRow,
    left: PieceCoord,
    successor: i64,
    last_new: i64,
)
    requires
        alike(a, b),
        a.at(row.id) matches Ok(now) ==> now.coord.buffer_id == left.buffer_id,
    ensures
        same_run(
            shorten_and_link(a, row, left, successor, last_new),
            shorten_and_link(b, row, left, successor, last_new),
        ),
{
    lemma_set_coord(a, b, row.id, left);
    let (c, r) = a.set_coord(row.id, left);
    let d = b.set_coord(row.id, left).0;
    if r is Ok {
        lemma_set_next(c, d, row.id, successor);
        if c.set_next(row.id, successor).1 is Ok {
            lemma_relink_next(
                c.set_next(row.id, successor).0,
                d.set_next(row.id, successor).0,
                row.next_id,
                last_new,
            );
        }
    }
}

proof fn lemma_cut_row<A, B>(
    a: Doc<A>,
    b: Doc<B>,
    row: PieceRow,
    k: u32,
    left_tombstone: bool,
    right_tombstone: bool,
)
    requires
        alike(a, b),
        a.at(row.id) == Ok::<PieceRow, A>(row),
    ensures
        same_run(
            cut_row(a, row, k, left_tombstone, right_tombstone),
            cut_row(b, row, k, left_tombstone, right_tombstone),
        ),
{
    lemma_step_forward(a, b, row);
    let (a1, r1) = step_forward(a, row);
    let b1 = step_forward(b, row).0;
    if r1 is Ok {
        lemma_alloc(a1, b1);
        let (a2, r2) = a1.alloc_piece_id();
        let b2 = b1.alloc_piece_id().0;
        if let Ok(m_id) = r2 {
            let right = right_part(row.coord, k, right_tombstone);
            assert(a2.at(m_id) == a1.at(m_id));
            assert(a2.at(row.id) == a.at(row.id));
            lemma_insert_row(a2, b2, m_id, row.id, row.next_id, right);
            let (a3, r3) = a2.insert_new_row(m_id, row.id, row.next_id, right);
            let b3 = b2.insert_new_row(m_id, row.id, row.next_id, right).0;
            if r3 is Ok {
                assert(a3.at(row.id) == a2.at(row.id));
                lemma_shorten_and_link(a3, b3, row, left_part(row.coord, k, left_tombstone), m_id, m_id);
            }
        }
    }
}

proof fn lemma_split_row<A, B>(a: Doc<A>, b: Doc<B>, row: PieceRow, k1: u32, k2: u32, middle: PieceCoord)
    requires
        alike(a, b),
        a.at(row.id) == Ok::<PieceRow, A>(row),
    ensures
        same_run(split_row(a, row, k1, k2, middle), split_row(b, row, k1, k2, middle)),
{
    lemma_step_forward(a, b, row);
    let (a1, r1) = step_forward(a, row);
    let b1 = step_forward(b, row).0;
    if r1 is Ok {
        lemma_alloc(a1, b1);
        let (a2, r2) = a1.alloc_piece_id();
        let b2 = b1.alloc_piece_id().0;
        if let Ok(m_id) = r2 {
            lemma_alloc(a2, b2);
            let (a3, r3) = a2.alloc_piece_id();
            let b3 = b2.alloc_piece_id().0;
            if let Ok(r_id) = r3 {
                assert(a3.at(m_id) == a1.at(m_id));
                assert(a3.at(r_id) == a2.at(r_id));
                assert(a3.at(row.id) == a.at(row.id));
                lemma_insert_row(a3, b3, m_id, row.id, r_id, middle);
                let (a4, r4) = a3.insert_new_row(m_id, row.id, r_id, middle);
                let b4 = b3.insert_new_row(m_id, row.id, r_id, middle).0;
                if r4 is Ok {
                    let right = right_part(row.coord, k2, row.coord.tombstone);
                    assert(r_id != m_id);
                    assert(a4.at(r_id) == a3.at(r_id));
                    assert(a4.at(row.id) == a3.at(row.id));
                    lemma_insert_row(a4, b4, r_id, m_id, row.next_id, right);
                    let (a5, r5) = a4.insert_new_row(r_id, m_id, row.next_id, right);
                    let b5 = b4.insert_new_row(r_id, m_id, row.next_id, right).0;
                    if r5 is Ok {
                        assert(a5.at(row.id) == a4.at(row.id));
                        lemma_shorten_and_link(
                            a5,
                            b5,
                            row,
                            left_part(row.coord, k1, row.coord.tombstone),
                            m_id,
                            r_id,
                        );
                    }
                }
            }
        }
    }
}

proof fn lemma_insert_at_head<A, B>(a: Doc<A>, b: Doc<B>, coord: PieceCoord)
    requires
        alike(a, b),
    ensures
        same_run(insert_at_head(a, coord), insert_at_head(b, coord)),
{
    let old_head = a.head_id();
    lemma_alloc(a, b);
    let (a1, r1) = a.alloc_piece_id();
    let b1 = b.alloc_piece_id().0;
    if let Ok(new_id) = r1 {
        assert(a1.at(new_id) == a.at(new_id));
        if old_head == 0 {
            lemma_insert_row(a1, b1, new_id, 0, 0, coord);
            let (a2, r2) = a1.insert_new_row(new_id, 0, 0, coord);
            let b2 = b1.insert_new_row(new_id, 0, 0, coord).0;
            if r2 is Ok {
                lemma_ends(a2, b2, new_head(a2, new_id), new_head(b2, new_id));
            }
        } else {
            lemma_read(a1, b1, old_head);
            let (a2, r2) = a1.read(old_head);
            let b2 = b1.read(old_head).0;
            if let Ok(head) = r2 {
                if head.prev_id == 0 {
                    assert(a2.at(new_id) == a1.at(new_id));
                    lemma_insert_row(a2, b2, new_id, 0, old_head, coord);
                    let (a3, r3) = a2.insert_new_row(new_id, 0, old_head, coord);
                    let b3 = b2.insert_new_row(new_id, 0, old_head, coord).0;
                    if r3 is Ok {
                        lemma_set_prev(a3, b3, old_head, new_id);
                        let (a4, r4) = a3.set_prev(old_head, new_id);
                        let b4 = b3.set_prev(old_head, new_id).0;
                        if r4 is Ok {
                            lemma_ends(a4, b4, new_head(a4, new_id), new_head(b4, new_id));
                        }
                    }
                }
            }
        }
    }
}

proof fn lemma_insert_after<A, B>(a: Doc<A>, b: Doc<B>, anchor_id: i64, coord: PieceCoord)
    requires
        alike(a, b),
    ensures
        same_run(insert_after(a, anchor_id, coord), insert_after(b, anchor_id, coord)),
{
    lemma_read(a, b, anchor_id);
    let (a1, r1) = a.read(anchor_id);
    let b1 = b.read(anchor_id).0;
    if let Ok(anchor) = r1 {
        lemma_step_forward(a1, b1, anchor);
        let (a2, r2) = step_forward(a1, anchor);
        let b2 = step_forward(b1, anchor).0;
        if r2 is Ok {
            lemma_alloc(a2, b2);
            let (a3, r3) = a2.alloc_piece_id();
            let b3 = b2.alloc_piece_id().0;
            if let Ok(new_id) = r3 {
                assert(a3.at(new_id) == a2.at(new_id));
                lemma_insert_row(a3, b3, new_id, anchor_id, anchor.next_id, coord);
                let (a4, r4) = a3.insert_new_row(new_id, anchor_id, anchor.next_id, coord);
                let b4 = b3.insert_new_row(new_id, anchor_id, anchor.next_id, coord).0;
                if r4 is Ok {
                    lemma_set_next(a4, b4, anchor_id, new_id);
                    let (a5, r5) = a4.set_next(anchor_id, new_id);
                    let b5 = b4.set_next(anchor_id, new_id).0;
                    if r5 is Ok {
                        lemma_relink_next(a5, b5, anchor.next_id, new_id);
                    }
                }
            }
        }
    }
}

/// An insert goes through on both documents or on neither.
pub proof fn lemma_insert_alike<A, B>(a: Doc<A>, b: Doc<B>, at: BufferCoord, coord: PieceCoord)
    requires
        alike(a, b),
    ensures
        same_run(insert_piece(a, at, coord), insert_piece(b, at, coord)),
{
    lemma_resolve(a, b, at, ResolvePurpose::InsertAnchor);
    let (a1, r1) = resolve_coord(a, at, ResolvePurpose::InsertAnchor);
    let b1 = resolve_coord(b, at, ResolvePurpose::InsertAnchor).0;
    if let Ok(found) = r1 {
        if let ResolveMatch::InRow { row, k } = found {
            lemma_step_backward(a1, b1, row);
            assert(a1.at(row.id) == a.at(row.id));
        }
        let (a2, r2) = insert_splice(a1, found, at);
        let b2 = insert_splice(b1, found, at).0;
        assert(same_run(insert_splice(a1, found, at), insert_splice(b1, found, at)));
        match r2 {
            Ok(InsertSplice::AtHead) => lemma_insert_at_head(a2, b2, coord),
            Ok(InsertSplice::AfterRow { id }) => lemma_insert_after(a2, b2, id, coord),
            Ok(InsertSplice::SplitRow { row, k }) => lemma_split_row(a2, b2, row, k, k, coord),
            Err(_) => {},
        }
    }
}

// ---------- deletions ----------

proof fn lemma_tombstone_row<A, B>(a: Doc<A>, b: Doc<B>, row_id: i64)
    requires
        alike(a, b),
    ensures
        same_run(tombstone_row(a, row_id), tombstone_row(b, row_id)),
{
    lemma_read(a, b, row_id);
    let (c, r) = a.read(row_id);
    let d = b.read(row_id).0;
    if let Ok(row) = r {
        assert(c.at(row_id) == a.at(row_id));
        lemma_set_coord(c, d, row_id, PieceCoord { tombstone: true, ..row.coord });
    }
}

proof fn lemma_delete_in_row<A, B>(a: Doc<A>, b: Doc<B>, row: PieceRow, k1: u32, k2: u32)
    requires
        alike(a, b),
        a.at(row.id) == Ok::<PieceRow, A>(row),
    ensures
        same_run(delete_in_row(a, row, k1, k2), delete_in_row(b, row, k1, k2)),
{
    if k1 == 0 && k2 == row.coord.len_bytes {
        lemma_tombstone_row(a, b, row.id);
    } else if k1 == 0 {
        lemma_cut_row(a, b, row, k2, true, false);
    } else if k2 == row.coord.len_bytes {
        lemma_cut_row(a, b, row, k1, row.coord.tombstone, true);
    } else {
        lemma_split_row(
            a,
            b,
            row,
            k1,
            k2,
            PieceCoord {
                start_byte: (row.coord.start_byte + k1) as u32,
                len_bytes: (k2 - k1) as u32,
                tombstone: true,
                ..row.coord
            },
        );
    }
}

proof fn lemma_delete_between<A, B>(a: Doc<A>, b: Doc<B>, row: PieceRow, last_id: i64, hops: int, cap: int)
    requires
        alike(a, b),
    ensures
        same_run(delete_between(a, row, last_id, hops, cap), delete_between(b, row, last_id, hops, cap)),
    decreases cap - hops,
{
    lemma_step_forward(a, b, row);
    let (c, r) = step_forward(a, row);
    let d = step_forward(b, row).0;
    if let Ok(Some(next)) = r {
        if next.id != last_id {
            lemma_tombstone_row(c, d, next.id);
            let (e, q) = tombstone_row(c, next.id);
            if q is Ok && hops + 1 <= cap {
                lemma_delete_between(e, tombstone_row(d, next.id).0, next, last_id, hops + 1, cap);
            }
        }
    }
}

/// The part of a deletion that lies in the row of an edge.
proof fn lemma_delete_edge_rows<A, B>(a: Doc<A>, b: Doc<B>, edge: EdgeRow, id: i64)
    requires
        alike(a, b),
    ensures
        same_run(delete_first(a, edge, id), delete_first(b, edge, id)),
        same_run(delete_last(a, edge, id), delete_last(b, edge, id)),
{
    match edge {
        EdgeRow::Whole(_) => lemma_tombstone_row(a, b, id),
        EdgeRow::Ragged { row_id, k } => {
            lemma_read(a, b, row_id);
            lemma_own_id(a, b, row_id);
            let (c, r) = a.read(row_id);
            let d = b.read(row_id).0;
            if let Ok(row) = r {
                assert(c.at(row.id) == a.at(row_id));
                lemma_cut_row(c, d, row, k, row.coord.tombstone, true);
                lemma_cut_row(c, d, row, k, true, false);
            }
        },
    }
}

proof fn lemma_delete_rows<A, B>(
    a: Doc<A>,
    b: Doc<B>,
    first: EdgeRow,
    first_id: i64,
    last: EdgeRow,
    last_id: i64,
)
    requires
        alike(a, b),
    ensures
        same_run(delete_rows(a, first, first_id, last, last_id), delete_rows(b, first, first_id, last, last_id)),
{
    lemma_delete_edge_rows(a, b, first, first_id);
    let (a1, r1) = delete_first(a, first, first_id);
    let b1 = delete_first(b, first, first_id).0;
    if r1 is Ok {
        lemma_read(a1, b1, first_id);
        let (a2, r2) = a1.read(first_id);
        let b2 = b1.read(first_id).0;
        if let Ok(row) = r2 {
            let cap = a1.next_piece_id as int;
            lemma_delete_between(a2, b2, row, last_id, 0, cap);
            let (a3, r3) = delete_between(a2, row, last_id, 0, cap);
            if r3 is Ok {
                lemma_delete_edge_rows(a3, delete_between(b2, row, last_id, 0, cap).0, last, last_id);
            }
        }
    }
}

proof fn lemma_delete_edges<A, B>(a: Doc<A>, b: Doc<B>, first: EdgeRow, last: EdgeRow)
    requires
        alike(a, b),
    ensures
        same_run(delete_edges(a, first, last), delete_edges(b, first, last)),
{
    if let (Some(first_id), Some(last_id)) = (edge_row_id(first), edge_row_id(last)) {
        if first_id == last_id {
            lemma_read(a, b, first_id);
            lemma_own_id(a, b, first_id);
            let (c, r) = a.read(first_id);
            let d = b.read(first_id).0;
            if let Ok(row) = r {
                assert(c.at(row.id) == a.at(first_id));
                lemma_delete_in_row(
                    c,
                    d,
                    row,
                    match first {
                        EdgeRow::Whole(_) => 0,
                        EdgeRow::Ragged { k, .. } => k,
                    },
                    match last {
                        EdgeRow::Whole(_) => row.coord.len_bytes,
                        EdgeRow::Ragged { k, .. } => k,
                    },
                );
            }
        } else {
            lemma_delete_rows(a, b, first, first_id, last, last_id);
        }
    }
}

proof fn lemma_delete_range<A, B>(a: Doc<A>, b: Doc<B>, start: DeletePos, end: DeletePos)
    requires
        alike(a, b),
    ensures
        same_run(delete_range(a, start, end), delete_range(b, start, end)),
{
    lemma_first_edge(a, b, start);
    let (a1, r1) = first_edge(a, start);
    let b1 = first_edge(b, start).0;
    if let Ok(first) = r1 {
        lemma_last_edge(a1, b1, end);
        let (a2, r2) = last_edge(a1, end);
        if let Ok(last) = r2 {
            lemma_delete_edges(a2, last_edge(b1, end).0, first, last);
        }
    }
}

/// A deletion goes through on both documents or on neither.
pub proof fn lemma_delete_alike<A, B>(a: Doc<A>, b: Doc<B>, start: BufferCoord, end: BufferCoord)
    requires
        alike(a, b),
    ensures
        same_run(delete_text(a, start, end), delete_text(b, start, end)),
{
    lemma_delete_start(a, b, start);
    let (a1, r1) = delete_start(a, start);
    let b1 = delete_start(b, start).0;
    if let Ok(from) = r1 {
        lemma_delete_end(a1, b1, end);
        let (a2, r2) = delete_end(a1, end);
        let b2 = delete_end(b1, end).0;
        if let Ok(to) = r2 {
            lemma_position_order(a2, b2, from, to);
            let (a3, r3) = position_order(a2, from, to);
            if r3 == Ok::<PosOrder, EditError<A>>(PosOrder::Less) {
                lemma_delete_range(a3, position_order(b2, from, to).0, from, to);
            }
        }
    }
}

// ---------- what is written ----------

/// The rows that an edit has added and changed are the same.
pub proof fn lemma_same_writes<A, B>(a: Doc<A>, b: Doc<B>)
    requires
        alike(a, b),
    ensures
        a.piece_inserts() == b.piece_inserts(),
        a.piece_updates() == b.piece_updates(),
{
    assert forall|i: int| 0 <= i < a.new_ids.len() implies #[trigger] a.piece_inserts()[i]
        == b.piece_inserts()[i] by {
        let id = a.new_ids[i];
        assert(a.new_ids.contains(id));
        assert(row_settled(a, id));
        assert(same_row(a, b, id));
    }
    assert(a.piece_inserts() =~= b.piece_inserts());
    let all = |id: i64| (a.base)(id) is Ok && !a.new_ids.contains(id);
    let pair = |id: i64| ((a.base)(id)->Ok_0, a.at(id)->Ok_0);
    let other_pair = |id: i64| ((b.base)(id)->Ok_0, b.at(id)->Ok_0);
    let read = |id: i64| a.loaded.contains(id) && !a.new_ids.contains(id);
    let other_read = |id: i64| b.loaded.contains(id) && !b.new_ids.contains(id);
    assert forall|id: i64| #[trigger] read(id) implies all(id) by {
        assert(row_settled(a, id));
    }
    assert forall|id: i64| #[trigger] all(id) && !read(id) implies row_change(pair(id).0, pair(id).1) is None by {
        assert(row_settled(a, id));
    }
    assert forall|id: i64| #[trigger] other_read(id) implies all(id) && other_pair(id) == pair(id) by {
        assert(row_settled(b, id));
        assert(same_row(a, b, id));
    }
    assert forall|id: i64| #[trigger] all(id) && !other_read(id) implies row_change(pair(id).0, pair(id).1)
        is None by {
        assert(row_settled(b, id));
        assert(same_row(a, b, id));
    }
    lemma_same_changes(read, pair, all, pair, i64::MAX + 1);
    lemma_same_changes(other_read, other_pair, all, pair, i64::MAX + 1);
}

} // verus!
