//! What every edit keeps up: rows that point at each other, in their list and
//! within their buffers.
//!
//! Nothing here asks for a chain. A document may hold rings of rows beside the
//! rows between its endpoints, and its rows may share bytes.

use vstd::prelude::*;

use crate::faults::WalkKind;
use crate::piece_text::{BufferCoord, PieceCoord};
use crate::piece_text_chain::apart;
use crate::piece_text_edit::{
    canonical_pos, cut_row, delete_between, delete_end, delete_first, delete_in_row, delete_range,
    delete_rows, delete_start, delete_text, edge_row_id, first_edge, insert_after, insert_at_head,
    insert_piece, insert_splice, last_edge, lemma_delete_ends_only_read, lemma_ends_only_read,
    lemma_live_after_only_reads, lemma_live_before_only_reads, lemma_order_only_reads,
    lemma_read_keeps_ids, lemma_resolve_only_reads, lemma_step_only_reads, only_read,
    position_order, resolve_coord, right_part, split_row, step_forward, tombstone_row, DeletePos,
    EdgeRow, InsertSplice, PosOrder, ResolveMatch,
};
use crate::piece_text_planner::{PieceRow, ResolvePurpose};
use crate::piece_text_resolution::Doc;

verus! {

// ---------- sound documents ----------

/// The row with the id points on to `next_id`.
pub open spec fn points_on<E>(doc: Doc<E>, id: i64, next_id: i64) -> bool {
    doc.at(id) matches Ok(row) && row.next_id == next_id
}

/// The row with the id points back to `prev_id`.
pub open spec fn points_back<E>(doc: Doc<E>, id: i64, prev_id: i64) -> bool {
    doc.at(id) matches Ok(row) && row.prev_id == prev_id
}

/// A range of bytes of a buffer that is there, and not empty.
pub open spec fn within(lengths: Map<i64, u32>, coord: PieceCoord) -> bool {
    &&& coord.len_bytes > 0
    &&& lengths.contains_key(coord.buffer_id)
    &&& coord.end() <= lengths[coord.buffer_id]
}

/// What holds of a row: it has its own id, is of the document's list, lies in a
/// buffer, and its neighbours point at it. Only an endpoint lacks a neighbour.
pub open spec fn row_sound<E>(doc: Doc<E>, lengths: Map<i64, u32>, id: i64) -> bool {
    doc.at(id) matches Ok(row) ==> {
        &&& 0 < id < doc.next_piece_id
        &&& row.id == id
        &&& row.list_number == doc.list_number
        &&& within(lengths, row.coord)
        &&& if row.prev_id == 0 {
            id == doc.head_id()
        } else {
            points_on(doc, row.prev_id, id)
        }
        &&& if row.next_id == 0 {
            id == doc.tail_id()
        } else {
            points_back(doc, row.next_id, id)
        }
    }
}

/// The endpoints are rows without a row before or behind them, or there are none.
pub open spec fn ends_sound<E>(doc: Doc<E>) -> bool {
    &&& doc.head is Ok
    &&& doc.tail is Ok
    &&& (doc.head_id() == 0) == (doc.tail_id() == 0)
    &&& doc.head_id() != 0 ==> points_back(doc, doc.head_id(), 0)
    &&& doc.tail_id() != 0 ==> points_on(doc, doc.tail_id(), 0)
}

/// The document is as an edit must find it and leave it.
pub open spec fn sound<E>(doc: Doc<E>, lengths: Map<i64, u32>) -> bool {
    &&& doc.next_piece_id > 0
    &&& ends_sound(doc)
    &&& forall|id: i64| #[trigger] row_sound(doc, lengths, id)
}

/// The ranges of two rows have no byte in common.
pub open spec fn pair_apart<E>(doc: Doc<E>, a: i64, b: i64) -> bool {
    a != b && doc.at(a) is Ok && doc.at(b) is Ok ==> apart(doc.at(a)->Ok_0.coord, doc.at(b)->Ok_0.coord)
}

/// No two rows have a byte in common.
pub open spec fn all_apart<E>(doc: Doc<E>) -> bool {
    forall|a: i64, b: i64| #[trigger] pair_apart(doc, a, b)
}

/// No row lies in the buffer.
pub open spec fn is_unused<E>(doc: Doc<E>, buffer_id: i64) -> bool {
    forall|id: i64| (#[trigger] doc.at(id)) matches Ok(row) ==> row.coord.buffer_id != buffer_id
}

/// Rows that were apart still are.
pub open spec fn stays_apart<E>(doc: Doc<E>, d: Doc<E>) -> bool {
    all_apart(doc) ==> all_apart(d)
}

pub proof fn lemma_sound_ids<E>(doc: Doc<E>, lengths: Map<i64, u32>)
    requires
        sound(doc, lengths),
    ensures
        doc.ids_match(),
{
    assert forall|id: i64| (#[trigger] doc.at(id)) is Ok implies doc.at(id)->Ok_0.id == id by {
        assert(row_sound(doc, lengths, id));
    }
}

proof fn lemma_reads_sound<E>(doc: Doc<E>, after: Doc<E>, lengths: Map<i64, u32>)
    requires
        sound(doc, lengths),
        only_read(doc, after),
    ensures
        sound(after, lengths),
        after.ids_match(),
        stays_apart(doc, after),
{
    assert forall|id: i64| #[trigger] row_sound(after, lengths, id) by {
        assert(row_sound(doc, lengths, id));
    }
    lemma_sound_ids(after, lengths);
    if all_apart(doc) {
        assert forall|a: i64, b: i64| #[trigger] pair_apart(after, a, b) by {
            assert(pair_apart(doc, a, b));
        }
    }
}

/// One more buffer changes nothing for the rows.
pub proof fn lemma_more_buffers<E>(doc: Doc<E>, lengths: Map<i64, u32>, buffer_id: i64, len_bytes: u32)
    requires
        sound(doc, lengths),
        !lengths.contains_key(buffer_id),
    ensures
        sound(doc, lengths.insert(buffer_id, len_bytes)),
{
    assert forall|id: i64| #[trigger] row_sound(doc, lengths.insert(buffer_id, len_bytes), id) by {
        assert(row_sound(doc, lengths, id));
    }
}

// ---------- new rows behind a row ----------

/// New rows from `first` to `last`, one or two, have been put behind a row.
spec fn put_behind<E>(doc: Doc<E>, d: Doc<E>, row: PieceRow, first: i64, last: i64) -> bool {
    &&& d.list_number == doc.list_number
    &&& d.head == doc.head
    &&& d.tail == (if row.next_id == 0 {
        Ok(last)
    } else {
        doc.tail
    })
    &&& first == doc.next_piece_id
    &&& last == first || last == first + 1
    &&& d.next_piece_id == last + 1
    &&& forall|id: i64|
        id != row.id && id != row.next_id && id != first && id != last ==> #[trigger] d.at(id) == doc.at(id)
    &&& d.at(row.id) matches Ok(r) && r.id == row.id && r.list_number == row.list_number
        && r.next_id == first && r.prev_id == (if row.next_id == row.id {
        last
    } else {
        row.prev_id
    })
    &&& row.next_id != 0 && row.next_id != row.id ==> (doc.at(row.next_id) matches Ok(n) ==> d.at(
        row.next_id,
    ) == Ok::<PieceRow, E>(PieceRow { prev_id: last, ..n }))
    &&& row.next_id == 0 ==> d.at(0) == doc.at(0)
    &&& d.at(first) matches Ok(r) && r.id == first && r.list_number == doc.list_number && r.prev_id == row.id
        && r.next_id == (if last == first {
        row.next_id
    } else {
        last
    })
    &&& last != first ==> (d.at(last) matches Ok(r) && r.id == last && r.list_number == doc.list_number
        && r.prev_id == first && r.next_id == row.next_id)
}

proof fn lemma_put_behind_sound<E>(
    doc: Doc<E>,
    d: Doc<E>,
    lengths: Map<i64, u32>,
    row: PieceRow,
    first: i64,
    last: i64,
)
    requires
        sound(doc, lengths),
        doc.at(row.id) == Ok::<PieceRow, E>(row),
        last < i64::MAX,
        put_behind(doc, d, row, first, last),
        within(lengths, d.at(row.id)->Ok_0.coord),
        within(lengths, d.at(first)->Ok_0.coord),
        within(lengths, d.at(last)->Ok_0.coord),
    ensures
        sound(d, lengths),
{
    let next = row.next_id;
    assert(row_sound(doc, lengths, row.id));
    assert(row_sound(doc, lengths, next));
    assert(row_sound(doc, lengths, first));
    assert(row_sound(doc, lengths, last));
    assert(row_sound(doc, lengths, doc.head_id()));
    assert(row_sound(doc, lengths, doc.tail_id()));
    assert(row_sound(doc, lengths, 0));
    assert forall|id: i64| #[trigger] row_sound(d, lengths, id) by {
        assert(row_sound(doc, lengths, id));
        if let Ok(r) = doc.at(id) {
            assert(row_sound(doc, lengths, r.prev_id));
            assert(row_sound(doc, lengths, r.next_id));
        }
    }
    assert(ends_sound(d));
}

/// The range lies in another.
spec fn lies_within(coord: PieceCoord, other: PieceCoord) -> bool {
    coord.buffer_id == other.buffer_id && other.start_byte <= coord.start_byte && coord.end()
        <= other.end()
}

proof fn lemma_put_behind_apart<E>(
    doc: Doc<E>,
    d: Doc<E>,
    lengths: Map<i64, u32>,
    row: PieceRow,
    first: i64,
    last: i64,
)
    requires
        sound(doc, lengths),
        all_apart(doc),
        doc.at(row.id) == Ok::<PieceRow, E>(row),
        put_behind(doc, d, row, first, last),
        ({
            let a = d.at(row.id)->Ok_0.coord;
            let b = d.at(first)->Ok_0.coord;
            let c = d.at(last)->Ok_0.coord;
            &&& lies_within(a, row.coord)
            &&& lies_within(b, row.coord) || is_unused(doc, b.buffer_id)
            &&& lies_within(c, row.coord) || is_unused(doc, c.buffer_id)
            &&& apart(a, b)
            &&& apart(a, c)
            &&& first != last ==> apart(b, c)
        }),
    ensures
        all_apart(d),
{
    assert(row_sound(doc, lengths, row.id));
    assert(row_sound(doc, lengths, row.next_id));
    assert(row_sound(doc, lengths, first));
    assert(row_sound(doc, lengths, last));
    assert(row_sound(doc, lengths, 0));
    assert forall|x: i64, y: i64| #[trigger] pair_apart(d, x, y) by {
        assert(pair_apart(doc, x, y));
        assert(pair_apart(doc, row.id, x));
        assert(pair_apart(doc, row.id, y));
    }
}

proof fn lemma_insert_after_sound<E>(doc: Doc<E>, lengths: Map<i64, u32>, anchor_id: i64, coord: PieceCoord)
    requires
        sound(doc, lengths),
        within(lengths, coord),
        insert_after(doc, anchor_id, coord).1 is Ok,
    ensures
        sound(insert_after(doc, anchor_id, coord).0, lengths),
        is_unused(doc, coord.buffer_id) ==> stays_apart(doc, insert_after(doc, anchor_id, coord).0),
{
    lemma_sound_ids(doc, lengths);
    let (d1, r1) = doc.read(anchor_id);
    let anchor = r1->Ok_0;
    lemma_read_keeps_ids(doc, anchor_id);
    let d2 = step_forward(d1, anchor).0;
    lemma_step_only_reads(d1, anchor);
    let m = doc.next_piece_id;
    assert(row_sound(doc, lengths, anchor_id));
    assert(row_sound(doc, lengths, anchor.next_id));
    assert(row_sound(doc, lengths, m));
    assert(row_sound(doc, lengths, 0));
    let d4 = d2.alloc_piece_id().0.insert_new_row(m, anchor_id, anchor.next_id, coord).0;
    assert(d4.at(anchor_id) == Ok::<PieceRow, E>(anchor));
    let d5 = d4.set_next(anchor_id, m).0;
    let d = insert_after(doc, anchor_id, coord).0;
    assert(put_behind(doc, d, anchor, m, m));
    lemma_put_behind_sound(doc, d, lengths, anchor, m, m);
    if is_unused(doc, coord.buffer_id) && all_apart(doc) {
        lemma_put_behind_apart(doc, d, lengths, anchor, m, m);
    }
}

/// Every row but one covers as many bytes as it did.
spec fn keeps_len<E>(doc: Doc<E>, d: Doc<E>, except: i64) -> bool {
    forall|id: i64|
        id != except && (#[trigger] doc.at(id)) is Ok ==> d.at(id) is Ok && d.at(id)->Ok_0.coord.len_bytes
            == doc.at(id)->Ok_0.coord.len_bytes
}

proof fn lemma_cut_sound<E>(
    doc: Doc<E>,
    lengths: Map<i64, u32>,
    row: PieceRow,
    k: u32,
    left_tombstone: bool,
    right_tombstone: bool,
)
    requires
        sound(doc, lengths),
        doc.at(row.id) == Ok::<PieceRow, E>(row),
        0 < k < row.coord.len_bytes,
        cut_row(doc, row, k, left_tombstone, right_tombstone).1 is Ok,
    ensures
        sound(cut_row(doc, row, k, left_tombstone, right_tombstone).0, lengths),
        keeps_len(doc, cut_row(doc, row, k, left_tombstone, right_tombstone).0, row.id),
        stays_apart(doc, cut_row(doc, row, k, left_tombstone, right_tombstone).0),
{
    lemma_sound_ids(doc, lengths);
    let d1 = step_forward(doc, row).0;
    lemma_step_only_reads(doc, row);
    let m = doc.next_piece_id;
    assert(row_sound(doc, lengths, row.id));
    assert(row_sound(doc, lengths, row.next_id));
    assert(row_sound(doc, lengths, m));
    assert(row_sound(doc, lengths, 0));
    let right = right_part(row.coord, k, right_tombstone);
    let d3 = d1.alloc_piece_id().0.insert_new_row(m, row.id, row.next_id, right).0;
    assert(d3.at(row.id) == Ok::<PieceRow, E>(row));
    let d = cut_row(doc, row, k, left_tombstone, right_tombstone).0;
    assert(put_behind(doc, d, row, m, m));
    lemma_put_behind_sound(doc, d, lengths, row, m, m);
    if all_apart(doc) {
        lemma_put_behind_apart(doc, d, lengths, row, m, m);
    }
    assert forall|id: i64| id != row.id && (#[trigger] doc.at(id)) is Ok implies d.at(id) is Ok && d.at(
        id,
    )->Ok_0.coord.len_bytes == doc.at(id)->Ok_0.coord.len_bytes by {
        assert(row_sound(doc, lengths, id));
    }
}

proof fn lemma_split_sound<E>(
    doc: Doc<E>,
    lengths: Map<i64, u32>,
    row: PieceRow,
    k1: u32,
    k2: u32,
    middle: PieceCoord,
)
    requires
        sound(doc, lengths),
        doc.at(row.id) == Ok::<PieceRow, E>(row),
        0 < k1 <= k2 < row.coord.len_bytes,
        within(lengths, middle),
        split_row(doc, row, k1, k2, middle).1 is Ok,
    ensures
        sound(split_row(doc, row, k1, k2, middle).0, lengths),
        is_unused(doc, middle.buffer_id) || (middle.buffer_id == row.coord.buffer_id
            && row.coord.start_byte + k1 <= middle.start_byte && middle.end() <= row.coord.start_byte + k2)
            ==> stays_apart(doc, split_row(doc, row, k1, k2, middle).0),
{
    lemma_sound_ids(doc, lengths);
    let d1 = step_forward(doc, row).0;
    lemma_step_only_reads(doc, row);
    let m = doc.next_piece_id;
    let n = (m + 1) as i64;
    assert(row_sound(doc, lengths, row.id));
    assert(row_sound(doc, lengths, row.next_id));
    assert(row_sound(doc, lengths, m));
    assert(row_sound(doc, lengths, n));
    assert(row_sound(doc, lengths, 0));
    let right = right_part(row.coord, k2, row.coord.tombstone);
    let d3 = d1.alloc_piece_id().0.alloc_piece_id().0;
    let d4 = d3.insert_new_row(m, row.id, n, middle).0;
    let d5 = d4.insert_new_row(n, m, row.next_id, right).0;
    assert(d5.at(row.id) == Ok::<PieceRow, E>(row));
    let d = split_row(doc, row, k1, k2, middle).0;
    assert(put_behind(doc, d, row, m, n));
    lemma_put_behind_sound(doc, d, lengths, row, m, n);
    if all_apart(doc) && (is_unused(doc, middle.buffer_id) || (middle.buffer_id == row.coord.buffer_id
        && row.coord.start_byte + k1 <= middle.start_byte && middle.end() <= row.coord.start_byte + k2)) {
        assert(doc.at(row.id) is Ok);
        lemma_put_behind_apart(doc, d, lengths, row, m, n);
    }
}

proof fn lemma_insert_at_head_sound<E>(doc: Doc<E>, lengths: Map<i64, u32>, coord: PieceCoord)
    requires
        sound(doc, lengths),
        within(lengths, coord),
        insert_at_head(doc, coord).1 is Ok,
    ensures
        sound(insert_at_head(doc, coord).0, lengths),
        is_unused(doc, coord.buffer_id) ==> stays_apart(doc, insert_at_head(doc, coord).0),
{
    let head = doc.head_id();
    let m = doc.next_piece_id;
    let d = insert_at_head(doc, coord).0;
    assert(row_sound(doc, lengths, head));
    assert(row_sound(doc, lengths, doc.tail_id()));
    assert(row_sound(doc, lengths, m));
    assert(row_sound(doc, lengths, 0));
    assert forall|id: i64| #[trigger] row_sound(d, lengths, id) by {
        assert(row_sound(doc, lengths, id));
        if let Ok(r) = doc.at(id) {
            assert(row_sound(doc, lengths, r.prev_id));
            assert(row_sound(doc, lengths, r.next_id));
        }
    }
    if is_unused(doc, coord.buffer_id) && all_apart(doc) {
        assert forall|a: i64, b: i64| #[trigger] pair_apart(d, a, b) by {
            assert(pair_apart(doc, a, b));
            assert(row_sound(doc, lengths, a));
            assert(row_sound(doc, lengths, b));
        }
    }
}

/// An insert that goes through keeps a document sound, and rows of a new buffer
/// apart from all others.
pub proof fn lemma_insert_sound<E>(doc: Doc<E>, lengths: Map<i64, u32>, at: BufferCoord, coord: PieceCoord)
    requires
        sound(doc, lengths),
        within(lengths, coord),
        insert_piece(doc, at, coord).1 is Ok,
    ensures
        sound(insert_piece(doc, at, coord).0, lengths),
        is_unused(doc, coord.buffer_id) ==> stays_apart(doc, insert_piece(doc, at, coord).0),
{
    lemma_sound_ids(doc, lengths);
    let (d1, r1) = resolve_coord(doc, at, ResolvePurpose::InsertAnchor);
    lemma_resolve_only_reads(doc, at, ResolvePurpose::InsertAnchor);
    lemma_reads_sound(doc, d1, lengths);
    let found = r1->Ok_0;
    let (d2, r2) = insert_splice(d1, found, at);
    if let ResolveMatch::InRow { row, k } = found {
        lemma_step_only_reads(d1, row);
    }
    lemma_reads_sound(d1, d2, lengths);
    if is_unused(doc, coord.buffer_id) {
        assert forall|id: i64| (#[trigger] d2.at(id)) is Ok implies d2.at(id)->Ok_0.coord.buffer_id
            != coord.buffer_id by {
            assert(d2.at(id) == doc.at(id));
        }
        assert(is_unused(d2, coord.buffer_id));
    }
    match r2->Ok_0 {
        InsertSplice::AtHead => {
            lemma_insert_at_head_sound(d2, lengths, coord);
        },
        InsertSplice::AfterRow { id } => {
            lemma_insert_after_sound(d2, lengths, id, coord);
        },
        InsertSplice::SplitRow { row, k } => {
            lemma_split_sound(d2, lengths, row, k, k, coord);
        },
    }
}

// ---------- deletions ----------

proof fn lemma_tombstone_sound<E>(doc: Doc<E>, lengths: Map<i64, u32>, row_id: i64)
    requires
        sound(doc, lengths),
    ensures
        sound(tombstone_row(doc, row_id).0, lengths),
        keeps_len(doc, tombstone_row(doc, row_id).0, 0),
        keeps_len(doc, tombstone_row(doc, row_id).0, row_id),
        stays_apart(doc, tombstone_row(doc, row_id).0),
{
    let d = tombstone_row(doc, row_id).0;
    assert(row_sound(doc, lengths, row_id));
    assert(row_sound(doc, lengths, doc.head_id()));
    assert(row_sound(doc, lengths, doc.tail_id()));
    assert forall|id: i64| #[trigger] row_sound(d, lengths, id) by {
        assert(row_sound(doc, lengths, id));
    }
    if all_apart(doc) {
        assert forall|a: i64, b: i64| #[trigger] pair_apart(d, a, b) by {
            assert(pair_apart(doc, a, b));
        }
    }
}

proof fn lemma_delete_in_row_sound<E>(doc: Doc<E>, lengths: Map<i64, u32>, row: PieceRow, k1: u32, k2: u32)
    requires
        sound(doc, lengths),
        doc.at(row.id) == Ok::<PieceRow, E>(row),
        k1 < k2 <= row.coord.len_bytes,
        delete_in_row(doc, row, k1, k2).1 is Ok,
    ensures
        sound(delete_in_row(doc, row, k1, k2).0, lengths),
        stays_apart(doc, delete_in_row(doc, row, k1, k2).0),
{
    assert(row_sound(doc, lengths, row.id));
    if k1 == 0 && k2 == row.coord.len_bytes {
        lemma_tombstone_sound(doc, lengths, row.id);
    } else if k1 == 0 {
        lemma_cut_sound(doc, lengths, row, k2, true, false);
    } else if k2 == row.coord.len_bytes {
        lemma_cut_sound(doc, lengths, row, k1, row.coord.tombstone, true);
    } else {
        let middle = PieceCoord {
            start_byte: (row.coord.start_byte + k1) as u32,
            len_bytes: (k2 - k1) as u32,
            tombstone: true,
            ..row.coord
        };
        lemma_split_sound(doc, lengths, row, k1, k2, middle);
    }
}

proof fn lemma_delete_between_sound<E>(
    doc: Doc<E>,
    lengths: Map<i64, u32>,
    row: PieceRow,
    last_id: i64,
    hops: int,
    cap: int,
)
    requires
        sound(doc, lengths),
        delete_between(doc, row, last_id, hops, cap).1 is Ok,
    ensures
        sound(delete_between(doc, row, last_id, hops, cap).0, lengths),
        stays_apart(doc, delete_between(doc, row, last_id, hops, cap).0),
        keeps_len(doc, delete_between(doc, row, last_id, hops, cap).0, 0),
    decreases cap - hops,
{
    lemma_sound_ids(doc, lengths);
    let (d, r) = step_forward(doc, row);
    lemma_step_only_reads(doc, row);
    lemma_reads_sound(doc, d, lengths);
    let next = r->Ok_0->Some_0;
    let end = delete_between(doc, row, last_id, hops, cap).0;
    assert(forall|id: i64| #[trigger] d.at(id) == doc.at(id));
    if next.id != last_id {
        let d2 = tombstone_row(d, next.id).0;
        lemma_tombstone_sound(d, lengths, next.id);
        lemma_delete_between_sound(d2, lengths, next, last_id, hops + 1, cap);
        assert forall|id: i64| id != 0 && (#[trigger] doc.at(id)) is Ok implies end.at(id) is Ok && end.at(
            id,
        )->Ok_0.coord.len_bytes == doc.at(id)->Ok_0.coord.len_bytes by {
            assert(d.at(id) is Ok);
            assert(d2.at(id) is Ok);
        }
    }
}

/// A row of the document that is deleted whole, or one that is deleted in part.
spec fn edge_sound<E>(doc: Doc<E>, edge: EdgeRow) -> bool {
    edge matches EdgeRow::Ragged { row_id, k } ==> (doc.at(row_id) matches Ok(row) ==> 0 < k
        < row.coord.len_bytes)
}

proof fn lemma_delete_rows_sound<E>(
    doc: Doc<E>,
    lengths: Map<i64, u32>,
    first: EdgeRow,
    first_id: i64,
    last: EdgeRow,
    last_id: i64,
)
    requires
        sound(doc, lengths),
        edge_sound(doc, first),
        edge_sound(doc, last),
        edge_row_id(first) == Some(first_id),
        edge_row_id(last) == Some(last_id),
        first_id != last_id,
        doc.at(last_id) is Ok,
        delete_rows(doc, first, first_id, last, last_id).1 is Ok,
    ensures
        sound(delete_rows(doc, first, first_id, last, last_id).0, lengths),
        stays_apart(doc, delete_rows(doc, first, first_id, last, last_id).0),
{
    lemma_sound_ids(doc, lengths);
    assert(row_sound(doc, lengths, last_id));
    let d1 = delete_first(doc, first, first_id).0;
    match first {
        EdgeRow::Whole(_) => {
            lemma_tombstone_sound(doc, lengths, first_id);
        },
        EdgeRow::Ragged { row_id, k } => {
            let (d, r) = doc.read(row_id);
            lemma_reads_sound(doc, d, lengths);
            assert(forall|id: i64| #[trigger] d.at(id) == doc.at(id));
            assert(row_sound(doc, lengths, row_id));
            let row = r->Ok_0;
            lemma_cut_sound(d, lengths, row, k, row.coord.tombstone, true);
            assert(d.at(last_id) is Ok);
        },
    }
    assert(d1.at(last_id) matches Ok(row) && row.coord.len_bytes == doc.at(last_id)->Ok_0.coord.len_bytes);
    let (d2, r2) = d1.read(first_id);
    lemma_sound_ids(d1, lengths);
    lemma_reads_sound(d1, d2, lengths);
    assert(d2.at(last_id) == d1.at(last_id));
    let row = r2->Ok_0;
    let d3 = delete_between(d2, row, last_id, 0, d1.next_piece_id as int).0;
    lemma_delete_between_sound(d2, lengths, row, last_id, 0, d1.next_piece_id as int);
    match last {
        EdgeRow::Whole(_) => {
            lemma_tombstone_sound(d3, lengths, last_id);
        },
        EdgeRow::Ragged { row_id, k } => {
            let (d, r) = d3.read(row_id);
            lemma_reads_sound(d3, d, lengths);
            assert(d.at(row_id) == d3.at(row_id));
            assert(row_sound(d3, lengths, row_id));
            lemma_cut_sound(d, lengths, r->Ok_0, k, true, false);
        },
    }
}

/// A position in a row lies behind its first byte.
spec fn pos_sound<E>(doc: Doc<E>, pos: DeletePos) -> bool {
    pos matches DeletePos::InRow { row_id, k } ==> doc.at(row_id) is Ok && 0 < k
        <= doc.at(row_id)->Ok_0.coord.len_bytes
}

proof fn lemma_canonical_sound<E>(doc: Doc<E>, lengths: Map<i64, u32>, row_id: i64, k: u32)
    requires
        sound(doc, lengths),
        doc.at(row_id) matches Ok(row) ==> k <= row.coord.len_bytes,
    ensures
        canonical_pos(doc, row_id, k).1 matches Ok(pos) ==> pos_sound(doc, pos),
{
    lemma_sound_ids(doc, lengths);
    let (d, r) = doc.read(row_id);
    lemma_reads_sound(doc, d, lengths);
    assert(row_sound(doc, lengths, row_id));
    if let Ok(row) = r {
        let cap = doc.next_piece_id as int;
        lemma_live_before_only_reads(d, row, 0, cap, WalkKind::Canonical);
        let (d2, r2) = crate::piece_text_edit::live_before(d, row, 0, cap, WalkKind::Canonical);
        if let Ok(Some(prev)) = r2 {
            assert(d2.at(prev.id) == doc.at(prev.id));
            assert(row_sound(doc, lengths, prev.id));
        }
    }
}

proof fn lemma_positions_sound<E>(doc: Doc<E>, lengths: Map<i64, u32>, coord: BufferCoord)
    requires
        sound(doc, lengths),
    ensures
        delete_start(doc, coord).1 matches Ok(pos) ==> pos_sound(doc, pos),
        delete_end(doc, coord).1 matches Ok(pos) ==> pos_sound(doc, pos),
{
    lemma_sound_ids(doc, lengths);
    lemma_resolve_only_reads(doc, coord, ResolvePurpose::DeleteStart);
    lemma_resolve_only_reads(doc, coord, ResolvePurpose::DeleteEnd);
    let (d1, r1) = resolve_coord(doc, coord, ResolvePurpose::DeleteStart);
    let (d2, r2) = resolve_coord(doc, coord, ResolvePurpose::DeleteEnd);
    lemma_reads_sound(doc, d1, lengths);
    lemma_reads_sound(doc, d2, lengths);
    assert(forall|id: i64| #[trigger] d1.at(id) == doc.at(id));
    assert(forall|id: i64| #[trigger] d2.at(id) == doc.at(id));
    if let Ok(ResolveMatch::AfterClamp { row_id }) = r1 {
        lemma_canonical_sound(d1, lengths, row_id, 0);
    }
    if let Ok(ResolveMatch::InRow { row, k }) = r1 {
        lemma_canonical_sound(d1, lengths, row.id, k);
    }
    if let Ok(ResolveMatch::AfterClamp { row_id }) = r2 {
        let (d3, r3) = d2.read(row_id);
        lemma_reads_sound(d2, d3, lengths);
        assert(forall|id: i64| #[trigger] d3.at(id) == doc.at(id));
        if let Ok(row) = r3 {
            lemma_canonical_sound(d3, lengths, row_id, row.coord.len_bytes);
        }
    }
    if let Ok(ResolveMatch::InRow { row, k }) = r2 {
        lemma_canonical_sound(d2, lengths, row.id, k);
    }
}

proof fn lemma_delete_range_sound<E>(doc: Doc<E>, lengths: Map<i64, u32>, start: DeletePos, end: DeletePos)
    requires
        sound(doc, lengths),
        pos_sound(doc, start),
        pos_sound(doc, end),
        (start matches DeletePos::InRow { row_id: r1, k: k1 } && end matches DeletePos::InRow {
            row_id: r2,
            k: k2,
        } && r1 == r2) ==> start->k < end->k,
        delete_range(doc, start, end).1 is Ok,
    ensures
        sound(delete_range(doc, start, end).0, lengths),
        stays_apart(doc, delete_range(doc, start, end).0),
{
    lemma_sound_ids(doc, lengths);
    let (d1, r1) = first_edge(doc, start);
    let first = r1->Ok_0;
    lemma_first_edge_sound(doc, lengths, start);
    let (d2, r2) = last_edge(d1, end);
    let last = r2->Ok_0;
    assert(forall|id: i64| #[trigger] d1.at(id) == doc.at(id));
    lemma_last_edge_sound(d1, lengths, end);
    assert(forall|id: i64| #[trigger] d2.at(id) == doc.at(id));
    match (edge_row_id(first), edge_row_id(last)) {
        (Some(first_id), Some(last_id)) => {
            assert(row_sound(doc, lengths, first_id));
            if first_id == last_id {
                let (d3, r3) = d2.read(first_id);
                lemma_reads_sound(d2, d3, lengths);
                assert(d3.at(first_id) == doc.at(first_id));
                let row = r3->Ok_0;
                let k1 = match first {
                    EdgeRow::Whole(_) => 0,
                    EdgeRow::Ragged { k, .. } => k,
                };
                let k2 = match last {
                    EdgeRow::Whole(_) => row.coord.len_bytes,
                    EdgeRow::Ragged { k, .. } => k,
                };
                lemma_delete_in_row_sound(d3, lengths, row, k1, k2);
            } else {
                lemma_delete_rows_sound(d2, lengths, first, first_id, last, last_id);
            }
        },
        _ => {},
    }
}

proof fn lemma_first_edge_sound<E>(doc: Doc<E>, lengths: Map<i64, u32>, start: DeletePos)
    requires
        sound(doc, lengths),
        pos_sound(doc, start),
    ensures
        only_read(doc, first_edge(doc, start).0),
        sound(first_edge(doc, start).0, lengths),
        stays_apart(doc, first_edge(doc, start).0),
        first_edge(doc, start).1 matches Ok(edge) ==> edge_sound(doc, edge) && (edge_row_id(
            edge,
        ) matches Some(id) ==> doc.at(id) is Ok) && (edge matches EdgeRow::Ragged { row_id, k }
            ==> start == (DeletePos::InRow { row_id, k })),
{
    lemma_sound_ids(doc, lengths);
    lemma_ends_only_read(doc);
    let d = first_edge(doc, start).0;
    if let DeletePos::InRow { row_id, k } = start {
        let (d1, r1) = doc.read(row_id);
        lemma_reads_sound(doc, d1, lengths);
        assert(forall|id: i64| #[trigger] d1.at(id) == doc.at(id));
        if let Ok(row) = r1 {
            let cap = doc.next_piece_id as int;
            lemma_live_after_only_reads(d1, row, 0, cap, WalkKind::NextLive);
        }
    }
    lemma_reads_sound(doc, d, lengths);
}

proof fn lemma_last_edge_sound<E>(doc: Doc<E>, lengths: Map<i64, u32>, end: DeletePos)
    requires
        sound(doc, lengths),
        pos_sound(doc, end),
    ensures
        only_read(doc, last_edge(doc, end).0),
        sound(last_edge(doc, end).0, lengths),
        stays_apart(doc, last_edge(doc, end).0),
        last_edge(doc, end).1 matches Ok(edge) ==> edge_sound(doc, edge) && (edge_row_id(
            edge,
        ) matches Some(id) ==> doc.at(id) is Ok) && (edge matches EdgeRow::Ragged { row_id, k }
            ==> end == (DeletePos::InRow { row_id, k })),
{
    lemma_sound_ids(doc, lengths);
    lemma_ends_only_read(doc);
    lemma_reads_sound(doc, last_edge(doc, end).0, lengths);
}

/// A deletion that goes through keeps a document sound, and its rows apart.
pub proof fn lemma_delete_sound<E>(doc: Doc<E>, lengths: Map<i64, u32>, start: BufferCoord, end: BufferCoord)
    requires
        sound(doc, lengths),
        delete_text(doc, start, end).1 is Ok,
    ensures
        sound(delete_text(doc, start, end).0, lengths),
        stays_apart(doc, delete_text(doc, start, end).0),
{
    lemma_sound_ids(doc, lengths);
    let (d1, r1) = delete_start(doc, start);
    lemma_delete_ends_only_read(doc, start);
    lemma_positions_sound(doc, lengths, start);
    lemma_reads_sound(doc, d1, lengths);
    let from = r1->Ok_0;
    let (d2, r2) = delete_end(d1, end);
    lemma_delete_ends_only_read(d1, end);
    lemma_positions_sound(d1, lengths, end);
    lemma_reads_sound(d1, d2, lengths);
    let to = r2->Ok_0;
    let (d3, r3) = position_order(d2, from, to);
    lemma_order_only_reads(d2, from, to);
    lemma_reads_sound(d2, d3, lengths);
    assert(forall|id: i64| #[trigger] d3.at(id) == doc.at(id));
    assert(forall|id: i64| #[trigger] d1.at(id) == doc.at(id));
    if r3->Ok_0 == PosOrder::Less {
        lemma_delete_range_sound(d3, lengths, from, to);
    }
}

} // verus!
