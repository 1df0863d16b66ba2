//! What an edit writes: which rows it adds, which it changes, and that this is
//! settled by the chain before the edit and the chain after it.

use vstd::prelude::*;

use crate::faults::WalkKind;
use crate::piece_text::{BufferCoord, PieceCoord};
use crate::piece_text_chain::{distinct, is_linked, row_in, Piece};
use crate::piece_text_edit::{
    cut_row, delete_between, delete_edges, delete_end, delete_first, delete_in_row, delete_last,
    delete_range, delete_rows, delete_start, delete_text, edge_row_id, first_edge, has_read_all, insert_after,
    insert_at_head, insert_piece, insert_splice, last_edge, left_part, lemma_delete_ends_only_read,
    lemma_delete_ends_read_all, lemma_resolve_reads_all,
    lemma_ends_only_read, lemma_keeps_ids, lemma_live_after_only_reads, lemma_order_only_reads,
    lemma_read_keeps_ids, lemma_resolve_only_reads, lemma_step_only_reads, new_head, only_read,
    position_order, relink_next, resolve_coord, right_part, shorten_and_link, split_row,
    step_backward, step_forward, tombstone_row, DeletePos, EdgeRow, InsertSplice, PosOrder,
    ResolveMatch,
};
use crate::piece_text_planner::{PieceRow, PieceRowInsert, PieceRowUpdate, ResolvePurpose};
use crate::piece_text_resolution::Doc;
use crate::piece_text_staging::{
    ids_below, ids_where, lemma_ids_below, row_change, row_changes, row_insert,
};

verus! {

// ---------- documents in the course of an edit ----------

/// The ids from one on up to another, in order.
pub open spec fn fresh_ids(from: int, to: int) -> Seq<i64> {
    Seq::new((to - from) as nat, |k: int| (from + k) as i64)
}

/// A document is a later state of another: it has rows with the next free ids
/// besides those that were there, and what has been changed has been read.
#[verifier::opaque]
pub open spec fn follows<E>(before: Doc<E>, after: Doc<E>) -> bool {
    &&& after.list_number == before.list_number
    &&& after.base == before.base
    &&& before.next_piece_id <= after.next_piece_id
    &&& after.new_ids == before.new_ids + fresh_ids(
        before.next_piece_id as int,
        after.next_piece_id as int,
    )
    &&& forall|id: i64| #[trigger] before.loaded.contains(id) ==> after.loaded.contains(id)
    &&& forall|id: i64| #[trigger]
        after.loaded.contains(id) ==> before.loaded.contains(id) || after.at(id) is Ok
    &&& forall|id: i64| !after.loaded.contains(id) ==> #[trigger] after.at(id) == before.at(id)
    &&& forall|id: i64|
        (#[trigger] after.at(id)) is Ok <==> before.at(id) is Ok || before.next_piece_id <= id
            < after.next_piece_id
    &&& after.ids_match()
}

pub proof fn lemma_follows_self<E>(doc: Doc<E>)
    requires
        doc.ids_match(),
    ensures
        follows(doc, doc),
{
    reveal(follows);
    assert(doc.new_ids + fresh_ids(doc.next_piece_id as int, doc.next_piece_id as int)
        =~= doc.new_ids);
}

pub proof fn lemma_follows_then<E>(a: Doc<E>, b: Doc<E>, c: Doc<E>)
    requires
        follows(a, b),
        follows(b, c),
    ensures
        follows(a, c),
{
    reveal(follows);
    let x = a.next_piece_id as int;
    let y = b.next_piece_id as int;
    let z = c.next_piece_id as int;
    assert(a.new_ids + fresh_ids(x, z) =~= a.new_ids + fresh_ids(x, y) + fresh_ids(y, z));
    assert forall|id: i64| #[trigger] a.loaded.contains(id) implies c.loaded.contains(id) by {
        assert(b.loaded.contains(id));
    }
    assert forall|id: i64| #[trigger] c.loaded.contains(id) implies a.loaded.contains(id) || c.at(
        id,
    ) is Ok by {
        if b.loaded.contains(id) {
            assert(b.at(id) is Ok ==> c.at(id) is Ok);
        }
    }
    assert forall|id: i64| !c.loaded.contains(id) implies #[trigger] c.at(id) == a.at(id) by {
        assert(!b.loaded.contains(id));
        assert(c.at(id) == b.at(id));
    }
    assert forall|id: i64|
        (#[trigger] c.at(id)) is Ok <==> a.at(id) is Ok || a.next_piece_id <= id < c.next_piece_id by {
        assert(b.at(id) is Ok <==> a.at(id) is Ok || a.next_piece_id <= id < b.next_piece_id);
    }
}

proof fn lemma_follows_ids<E>(before: Doc<E>, after: Doc<E>)
    requires
        follows(before, after),
    ensures
        after.ids_match(),
{
    reveal(follows);
}

proof fn lemma_reads_follow<E>(before: Doc<E>, after: Doc<E>)
    requires
        before.ids_match(),
        only_read(before, after),
    ensures
        follows(before, after),
{
    reveal(follows);
    lemma_keeps_ids(before, after);
    assert(before.new_ids + fresh_ids(before.next_piece_id as int, before.next_piece_id as int)
        =~= before.new_ids);
    assert forall|id: i64| !after.loaded.contains(id) implies #[trigger] after.at(id) == before.at(
        id,
    ) by {}
    assert forall|id: i64|
        (#[trigger] after.at(id)) is Ok <==> before.at(id) is Ok || before.next_piece_id <= id
            < after.next_piece_id by {
        assert(after.at(id) == before.at(id));
    }
}

proof fn lemma_read_follows<E>(doc: Doc<E>, row_id: i64)
    requires
        doc.ids_match(),
    ensures
        follows(doc, doc.read(row_id).0),
        doc.read(row_id).0.ids_match(),
{
    lemma_read_keeps_ids(doc, row_id);
    lemma_reads_follow(doc, doc.read(row_id).0);
}

/// A change of a row that is there.
proof fn lemma_write_follows<E>(doc: Doc<E>, row: PieceRow)
    requires
        doc.ids_match(),
        doc.at(row.id) is Ok,
    ensures
        follows(doc, doc.after_read(row.id).with_row(row)),
{
    reveal(follows);
    let d = doc.after_read(row.id).with_row(row);
    assert(doc.new_ids + fresh_ids(doc.next_piece_id as int, doc.next_piece_id as int)
        =~= doc.new_ids);
    assert forall|id: i64| !d.loaded.contains(id) implies #[trigger] d.at(id) == doc.at(id) by {
        assert(id != row.id);
    }
    assert forall|id: i64| (#[trigger] d.at(id)) is Ok implies d.at(id)->Ok_0.id == id by {
        assert(id != row.id ==> d.at(id) == doc.at(id));
    }
    assert forall|id: i64|
        (#[trigger] d.at(id)) is Ok <==> doc.at(id) is Ok || doc.next_piece_id <= id
            < d.next_piece_id by {}
}

proof fn lemma_sets_follow<E>(doc: Doc<E>, row_id: i64)
    requires
        doc.ids_match(),
    ensures
        forall|p: i64| follows(doc, (#[trigger] doc.set_prev(row_id, p)).0),
        forall|n: i64| follows(doc, (#[trigger] doc.set_next(row_id, n)).0),
        forall|c: PieceCoord| follows(doc, (#[trigger] doc.set_coord(row_id, c)).0),
{
    match doc.at(row_id) {
        Ok(row) => {
            assert(doc.at(row_id) is Ok);
            assert(row.id == row_id);
            assert forall|p: i64| follows(doc, (#[trigger] doc.set_prev(row_id, p)).0) by {
                lemma_write_follows(doc, PieceRow { prev_id: p, ..row });
            }
            assert forall|n: i64| follows(doc, (#[trigger] doc.set_next(row_id, n)).0) by {
                lemma_write_follows(doc, PieceRow { next_id: n, ..row });
            }
            assert forall|c: PieceCoord| follows(doc, (#[trigger] doc.set_coord(row_id, c)).0) by {
                lemma_write_follows(doc, PieceRow { coord: c, ..row });
            }
        },
        Err(_) => {
            lemma_read_follows(doc, row_id);
        },
    }
}

/// A new row with the next free id.
proof fn lemma_add_follows<E>(doc: Doc<E>, prev_id: i64, next_id: i64, coord: PieceCoord)
    requires
        doc.ids_match(),
        doc.alloc_piece_id().1 is Ok,
        doc.alloc_piece_id().0.insert_new_row(doc.next_piece_id, prev_id, next_id, coord).1 is Ok,
    ensures
        follows(
            doc,
            doc.alloc_piece_id().0.insert_new_row(doc.next_piece_id, prev_id, next_id, coord).0,
        ),
{
    reveal(follows);
    let m = doc.next_piece_id;
    let d = doc.alloc_piece_id().0.insert_new_row(m, prev_id, next_id, coord).0;
    assert(doc.new_ids + fresh_ids(m as int, m + 1) =~= d.new_ids);
    assert forall|id: i64| !d.loaded.contains(id) implies #[trigger] d.at(id) == doc.at(id) by {
        assert(id != m);
    }
    assert forall|id: i64| (#[trigger] d.at(id)) is Ok implies d.at(id)->Ok_0.id == id by {
        assert(id != m ==> d.at(id) == doc.at(id));
    }
    assert forall|id: i64|
        (#[trigger] d.at(id)) is Ok <==> doc.at(id) is Ok || doc.next_piece_id <= id
            < d.next_piece_id by {}
}

/// Two new rows.
proof fn lemma_add_two_follow<E>(doc: Doc<E>, first: PieceRow, second: PieceRow)
    requires
        doc.ids_match(),
        first.id == doc.next_piece_id,
        doc.next_piece_id < i64::MAX - 1,
        second.id == doc.next_piece_id + 1,
        ({
            let d3 = doc.alloc_piece_id().0.alloc_piece_id().0;
            let (d4, r4) = d3.insert_new_row(first.id, first.prev_id, first.next_id, first.coord);
            let r5 = d4.insert_new_row(second.id, second.prev_id, second.next_id, second.coord).1;
            r4 is Ok && r5 is Ok
        }),
    ensures
        ({
            let d3 = doc.alloc_piece_id().0.alloc_piece_id().0;
            let d4 = d3.insert_new_row(first.id, first.prev_id, first.next_id, first.coord).0;
            let d5 = d4.insert_new_row(second.id, second.prev_id, second.next_id, second.coord).0;
            follows(doc, d5)
        }),
{
    reveal(follows);
    let m = doc.next_piece_id;
    let d3 = doc.alloc_piece_id().0.alloc_piece_id().0;
    let d4 = d3.insert_new_row(first.id, first.prev_id, first.next_id, first.coord).0;
    let d = d4.insert_new_row(second.id, second.prev_id, second.next_id, second.coord).0;
    assert(doc.new_ids + fresh_ids(m as int, m + 2) =~= d.new_ids);
    assert forall|id: i64| !d.loaded.contains(id) implies #[trigger] d.at(id) == doc.at(id) by {
        assert(id != m && id != m + 1);
    }
    assert forall|id: i64| (#[trigger] d.at(id)) is Ok implies d.at(id)->Ok_0.id == id by {
        assert(id != m && id != m + 1 ==> d.at(id) == doc.at(id));
    }
    assert forall|id: i64|
        (#[trigger] d.at(id)) is Ok <==> doc.at(id) is Ok || doc.next_piece_id <= id
            < d.next_piece_id by {}
}

/// The endpoints are no rows.
proof fn lemma_ends_follow<E>(doc: Doc<E>, row_id: i64)
    requires
        doc.ids_match(),
    ensures
        follows(doc, doc.set_head(row_id)),
        follows(doc, doc.set_tail(row_id)),
        follows(doc, new_head(doc, row_id)),
{
    reveal(follows);
    assert(doc.new_ids + fresh_ids(doc.next_piece_id as int, doc.next_piece_id as int)
        =~= doc.new_ids);
    let d = doc.set_head(row_id);
    let e = doc.set_tail(row_id);
    let f = new_head(doc, row_id);
    lemma_keeps_ids(doc, d);
    lemma_keeps_ids(doc, e);
    lemma_keeps_ids(doc, f);
    assert forall|id: i64|
        #![trigger d.at(id)]
        #![trigger e.at(id)]
        #![trigger f.at(id)]
        d.at(id) == doc.at(id) && e.at(id) == doc.at(id) && f.at(id) == doc.at(id) by {}
}

// ---------- splices ----------

proof fn lemma_relink_follows<E>(doc: Doc<E>, next_id: i64, row_id: i64)
    requires
        doc.ids_match(),
    ensures
        follows(doc, relink_next(doc, next_id, row_id).0),
{
    lemma_ends_follow(doc, row_id);
    lemma_sets_follow(doc, next_id);
}

proof fn lemma_shorten_follows<E>(doc: Doc<E>, row: PieceRow, left: PieceCoord, successor: i64, last_new: i64)
    requires
        doc.ids_match(),
    ensures
        follows(doc, shorten_and_link(doc, row, left, successor, last_new).0),
{
    let d1 = doc.set_coord(row.id, left).0;
    lemma_sets_follow(doc, row.id);
    lemma_follows_ids(doc, d1);
    let d2 = d1.set_next(row.id, successor).0;
    lemma_sets_follow(d1, row.id);
    lemma_follows_ids(d1, d2);
    lemma_follows_then(doc, d1, d2);
    lemma_relink_follows(d2, row.next_id, last_new);
    lemma_follows_then(doc, d2, relink_next(d2, row.next_id, last_new).0);
}

proof fn lemma_step_follows<E>(doc: Doc<E>, row: PieceRow)
    requires
        doc.ids_match(),
    ensures
        follows(doc, step_forward(doc, row).0),
        step_forward(doc, row).0.ids_match(),
        follows(doc, step_backward(doc, row).0),
        step_backward(doc, row).0.ids_match(),
{
    lemma_step_only_reads(doc, row);
    lemma_reads_follow(doc, step_forward(doc, row).0);
    lemma_reads_follow(doc, step_backward(doc, row).0);
}

proof fn lemma_cut_follows<E>(doc: Doc<E>, row: PieceRow, k: u32, left_tombstone: bool, right_tombstone: bool)
    requires
        doc.ids_match(),
        cut_row(doc, row, k, left_tombstone, right_tombstone).1 is Ok,
    ensures
        follows(doc, cut_row(doc, row, k, left_tombstone, right_tombstone).0),
{
    let d1 = step_forward(doc, row).0;
    lemma_step_follows(doc, row);
    let m = d1.next_piece_id;
    let right = right_part(row.coord, k, right_tombstone);
    lemma_add_follows(d1, row.id, row.next_id, right);
    let d3 = d1.alloc_piece_id().0.insert_new_row(m, row.id, row.next_id, right).0;
    lemma_follows_ids(d1, d3);
    lemma_follows_then(doc, d1, d3);
    let left = left_part(row.coord, k, left_tombstone);
    lemma_shorten_follows(d3, row, left, m, m);
    lemma_follows_then(doc, d3, shorten_and_link(d3, row, left, m, m).0);
}

proof fn lemma_split_follows<E>(doc: Doc<E>, row: PieceRow, k1: u32, k2: u32, middle: PieceCoord)
    requires
        doc.ids_match(),
        split_row(doc, row, k1, k2, middle).1 is Ok,
    ensures
        follows(doc, split_row(doc, row, k1, k2, middle).0),
{
    let d1 = step_forward(doc, row).0;
    lemma_step_follows(doc, row);
    let m = d1.next_piece_id;
    let n = (m + 1) as i64;
    let first = PieceRow { id: m, prev_id: row.id, next_id: n, coord: middle, ..row };
    let right = right_part(row.coord, k2, row.coord.tombstone);
    let second = PieceRow { id: n, prev_id: m, next_id: row.next_id, coord: right, ..row };
    let d3 = d1.alloc_piece_id().0.alloc_piece_id().0;
    let d4 = d3.insert_new_row(m, row.id, n, middle).0;
    let d5 = d4.insert_new_row(n, m, row.next_id, right).0;
    lemma_add_two_follow(d1, first, second);
    lemma_follows_ids(d1, d5);
    lemma_follows_then(doc, d1, d5);
    let left = left_part(row.coord, k1, row.coord.tombstone);
    lemma_shorten_follows(d5, row, left, m, n);
    lemma_follows_then(doc, d5, shorten_and_link(d5, row, left, m, n).0);
}

proof fn lemma_insert_at_head_follows<E>(doc: Doc<E>, coord: PieceCoord)
    requires
        doc.ids_match(),
        insert_at_head(doc, coord).1 is Ok,
    ensures
        follows(doc, insert_at_head(doc, coord).0),
{
    let head = doc.head_id();
    let m = doc.next_piece_id;
    if head == 0 {
        lemma_add_follows(doc, 0, 0, coord);
        let d2 = doc.alloc_piece_id().0.insert_new_row(m, 0, 0, coord).0;
        lemma_follows_ids(doc, d2);
        lemma_ends_follow(d2, m);
        lemma_follows_then(doc, d2, new_head(d2, m));
    } else {
        let d1 = doc.read(head).0;
        lemma_read_follows(doc, head);
        assert(doc.alloc_piece_id().0.read(head).0 == d1.alloc_piece_id().0);
        lemma_add_follows(d1, 0, head, coord);
        let d3 = d1.alloc_piece_id().0.insert_new_row(m, 0, head, coord).0;
        lemma_follows_ids(d1, d3);
        lemma_follows_then(doc, d1, d3);
        let d4 = d3.set_prev(head, m).0;
        lemma_sets_follow(d3, head);
        lemma_follows_ids(d3, d4);
        lemma_follows_then(doc, d3, d4);
        lemma_ends_follow(d4, m);
        lemma_follows_then(doc, d4, new_head(d4, m));
    }
}

proof fn lemma_insert_after_follows<E>(doc: Doc<E>, anchor_id: i64, coord: PieceCoord)
    requires
        doc.ids_match(),
        insert_after(doc, anchor_id, coord).1 is Ok,
    ensures
        follows(doc, insert_after(doc, anchor_id, coord).0),
{
    let (d1, r1) = doc.read(anchor_id);
    let anchor = r1->Ok_0;
    lemma_read_follows(doc, anchor_id);
    let d2 = step_forward(d1, anchor).0;
    lemma_step_follows(d1, anchor);
    lemma_follows_then(doc, d1, d2);
    let m = d2.next_piece_id;
    lemma_add_follows(d2, anchor_id, anchor.next_id, coord);
    let d4 = d2.alloc_piece_id().0.insert_new_row(m, anchor_id, anchor.next_id, coord).0;
    lemma_follows_ids(d2, d4);
    lemma_follows_then(doc, d2, d4);
    let d5 = d4.set_next(anchor_id, m).0;
    lemma_sets_follow(d4, anchor_id);
    lemma_follows_ids(d4, d5);
    lemma_follows_then(doc, d4, d5);
    lemma_relink_follows(d5, anchor.next_id, m);
    lemma_follows_then(doc, d5, relink_next(d5, anchor.next_id, m).0);
}

/// An insert that goes through leads to a later state of the document.
pub proof fn lemma_insert_follows<E>(doc: Doc<E>, at: BufferCoord, coord: PieceCoord)
    requires
        doc.ids_match(),
        insert_piece(doc, at, coord).1 is Ok,
    ensures
        follows(doc, insert_piece(doc, at, coord).0),
        at.buffer_id > 0 ==> has_read_all(doc, insert_piece(doc, at, coord).0, at.buffer_id),
{
    let (d1, r1) = resolve_coord(doc, at, ResolvePurpose::InsertAnchor);
    lemma_resolve_only_reads(doc, at, ResolvePurpose::InsertAnchor);
    lemma_reads_follow(doc, d1);
    lemma_follows_ids(doc, d1);
    let found = r1->Ok_0;
    let (d2, r2) = insert_splice(d1, found, at);
    assert(follows(d1, d2)) by {
        lemma_follows_self(d1);
        if let ResolveMatch::InRow { row, k } = found {
            lemma_step_follows(d1, row);
        }
    }
    lemma_follows_ids(d1, d2);
    lemma_follows_then(doc, d1, d2);
    match r2->Ok_0 {
        InsertSplice::AtHead => {
            lemma_insert_at_head_follows(d2, coord);
        },
        InsertSplice::AfterRow { id } => {
            lemma_insert_after_follows(d2, id, coord);
        },
        InsertSplice::SplitRow { row, k } => {
            lemma_split_follows(d2, row, k, k, coord);
        },
    }
    lemma_follows_then(doc, d2, insert_piece(doc, at, coord).0);
    if at.buffer_id > 0 {
        lemma_resolve_reads_all(doc, at, ResolvePurpose::InsertAnchor);
        lemma_still_read(doc, d1, d2, at.buffer_id);
        lemma_still_read(doc, d2, insert_piece(doc, at, coord).0, at.buffer_id);
    }
}

/// What was read stays so.
proof fn lemma_still_read<E>(doc: Doc<E>, before: Doc<E>, after: Doc<E>, buffer_id: i64)
    requires
        has_read_all(doc, before, buffer_id),
        follows(before, after),
    ensures
        has_read_all(doc, after, buffer_id),
{
    reveal(follows);
    let ids = (doc.candidates)(buffer_id)->Ok_0;
    assert forall|i: int| 0 <= i < ids.len() implies after.loaded.contains(#[trigger] ids[i]) by {
        assert(before.loaded.contains(ids[i]));
    }
}

// ---------- deletions ----------

proof fn lemma_tombstone_follows<E>(doc: Doc<E>, row_id: i64)
    requires
        doc.ids_match(),
    ensures
        follows(doc, tombstone_row(doc, row_id).0),
        tombstone_row(doc, row_id).0.ids_match(),
{
    let d1 = doc.read(row_id).0;
    let d = tombstone_row(doc, row_id).0;
    lemma_read_follows(doc, row_id);
    lemma_sets_follow(d1, row_id);
    if d != d1 {
        lemma_follows_then(doc, d1, d);
    }
    lemma_follows_ids(doc, d);
}

proof fn lemma_delete_in_row_follows<E>(doc: Doc<E>, row: PieceRow, k1: u32, k2: u32)
    requires
        doc.ids_match(),
        delete_in_row(doc, row, k1, k2).1 is Ok,
    ensures
        follows(doc, delete_in_row(doc, row, k1, k2).0),
{
    if k1 == 0 && k2 == row.coord.len_bytes {
        lemma_tombstone_follows(doc, row.id);
    } else if k1 == 0 {
        lemma_cut_follows(doc, row, k2, true, false);
    } else if k2 == row.coord.len_bytes {
        lemma_cut_follows(doc, row, k1, row.coord.tombstone, true);
    } else {
        let middle = PieceCoord {
            start_byte: (row.coord.start_byte + k1) as u32,
            len_bytes: (k2 - k1) as u32,
            tombstone: true,
            ..row.coord
        };
        lemma_split_follows(doc, row, k1, k2, middle);
    }
}

proof fn lemma_delete_between_follows<E>(doc: Doc<E>, row: PieceRow, last_id: i64, hops: int, cap: int)
    requires
        doc.ids_match(),
        delete_between(doc, row, last_id, hops, cap).1 is Ok,
    ensures
        follows(doc, delete_between(doc, row, last_id, hops, cap).0),
    decreases cap - hops,
{
    let (d, r) = step_forward(doc, row);
    lemma_step_follows(doc, row);
    let next = r->Ok_0->Some_0;
    if next.id != last_id {
        let d2 = tombstone_row(d, next.id).0;
        lemma_tombstone_follows(d, next.id);
        lemma_follows_then(doc, d, d2);
        lemma_delete_between_follows(d2, next, last_id, hops + 1, cap);
        lemma_follows_then(doc, d2, delete_between(d2, next, last_id, hops + 1, cap).0);
    }
}

proof fn lemma_delete_edge_follows<E>(doc: Doc<E>, edge: EdgeRow, id: i64)
    requires
        doc.ids_match(),
    ensures
        delete_first(doc, edge, id).1 is Ok ==> follows(doc, delete_first(doc, edge, id).0),
        delete_last(doc, edge, id).1 is Ok ==> follows(doc, delete_last(doc, edge, id).0),
{
    match edge {
        EdgeRow::Whole(_) => {
            lemma_tombstone_follows(doc, id);
        },
        EdgeRow::Ragged { row_id, k } => {
            let (d, r) = doc.read(row_id);
            lemma_read_follows(doc, row_id);
            if let Ok(row) = r {
                if delete_first(doc, edge, id).1 is Ok {
                    lemma_cut_follows(d, row, k, row.coord.tombstone, true);
                    lemma_follows_then(doc, d, delete_first(doc, edge, id).0);
                }
                if delete_last(doc, edge, id).1 is Ok {
                    lemma_cut_follows(d, row, k, true, false);
                    lemma_follows_then(doc, d, delete_last(doc, edge, id).0);
                }
            }
        },
    }
}

proof fn lemma_delete_rows_follows<E>(doc: Doc<E>, first: EdgeRow, first_id: i64, last: EdgeRow, last_id: i64)
    requires
        doc.ids_match(),
        delete_rows(doc, first, first_id, last, last_id).1 is Ok,
    ensures
        follows(doc, delete_rows(doc, first, first_id, last, last_id).0),
{
    let d1 = delete_first(doc, first, first_id).0;
    lemma_delete_edge_follows(doc, first, first_id);
    lemma_follows_ids(doc, d1);
    let (d2, r2) = d1.read(first_id);
    lemma_read_follows(d1, first_id);
    lemma_follows_then(doc, d1, d2);
    let row = r2->Ok_0;
    let d3 = delete_between(d2, row, last_id, 0, d1.next_piece_id as int).0;
    lemma_delete_between_follows(d2, row, last_id, 0, d1.next_piece_id as int);
    lemma_follows_ids(d2, d3);
    lemma_follows_then(doc, d2, d3);
    lemma_delete_edge_follows(d3, last, last_id);
    lemma_follows_then(doc, d3, delete_last(d3, last, last_id).0);
}

proof fn lemma_delete_edges_follows<E>(doc: Doc<E>, first: EdgeRow, last: EdgeRow)
    requires
        doc.ids_match(),
        delete_edges(doc, first, last).1 is Ok,
    ensures
        follows(doc, delete_edges(doc, first, last).0),
{
    match (edge_row_id(first), edge_row_id(last)) {
        (Some(first_id), Some(last_id)) => {
            if first_id == last_id {
                let (d, r) = doc.read(first_id);
                lemma_read_follows(doc, first_id);
                let row = r->Ok_0;
                let k1 = match first {
                    EdgeRow::Whole(_) => 0,
                    EdgeRow::Ragged { k, .. } => k,
                };
                let k2 = match last {
                    EdgeRow::Whole(_) => row.coord.len_bytes,
                    EdgeRow::Ragged { k, .. } => k,
                };
                lemma_delete_in_row_follows(d, row, k1, k2);
                lemma_follows_then(doc, d, delete_in_row(d, row, k1, k2).0);
            } else {
                lemma_delete_rows_follows(doc, first, first_id, last, last_id);
            }
        },
        _ => {
            lemma_follows_self(doc);
        },
    }
}

proof fn lemma_edges_only_read<E>(doc: Doc<E>, pos: DeletePos)
    requires
        doc.ids_match(),
    ensures
        follows(doc, first_edge(doc, pos).0),
        follows(doc, last_edge(doc, pos).0),
{
    lemma_follows_self(doc);
    lemma_ends_only_read(doc);
    match pos {
        DeletePos::InRow { row_id, k } => {
            let (d, r) = doc.read(row_id);
            lemma_read_follows(doc, row_id);
            if let Ok(row) = r {
                let d2 = crate::piece_text_edit::live_after(
                    d,
                    row,
                    0,
                    doc.next_piece_id as int,
                    WalkKind::NextLive,
                ).0;
                lemma_live_after_only_reads(
                    d,
                    row,
                    0,
                    doc.next_piece_id as int,
                    WalkKind::NextLive,
                );
                lemma_reads_follow(d, d2);
                lemma_follows_then(doc, d, d2);
            }
        },
        DeletePos::AfterTail => {
            lemma_reads_follow(doc, last_edge(doc, pos).0);
        },
        DeletePos::BeforeHead => {
            lemma_reads_follow(doc, first_edge(doc, pos).0);
        },
    }
}

/// A deletion that goes through leads to a later state of the document.
pub proof fn lemma_delete_follows<E>(doc: Doc<E>, start: BufferCoord, end: BufferCoord)
    requires
        doc.ids_match(),
        delete_text(doc, start, end).1 is Ok,
    ensures
        follows(doc, delete_text(doc, start, end).0),
        start.buffer_id > 0 ==> has_read_all(doc, delete_text(doc, start, end).0, start.buffer_id),
        end.buffer_id > 0 ==> has_read_all(doc, delete_text(doc, start, end).0, end.buffer_id),
{
    let (d1, r1) = delete_start(doc, start);
    lemma_delete_ends_only_read(doc, start);
    lemma_reads_follow(doc, d1);
    lemma_follows_ids(doc, d1);
    let (d2, r2) = delete_end(d1, end);
    lemma_delete_ends_only_read(d1, end);
    lemma_reads_follow(d1, d2);
    lemma_follows_ids(d1, d2);
    lemma_follows_then(doc, d1, d2);
    let (d3, r3) = position_order(d2, r1->Ok_0, r2->Ok_0);
    lemma_order_only_reads(d2, r1->Ok_0, r2->Ok_0);
    lemma_reads_follow(d2, d3);
    lemma_follows_ids(d2, d3);
    lemma_follows_then(doc, d2, d3);
    if r3->Ok_0 == PosOrder::Less {
        let (d4, r4) = first_edge(d3, r1->Ok_0);
        lemma_edges_only_read(d3, r1->Ok_0);
        lemma_follows_ids(d3, d4);
        lemma_follows_then(doc, d3, d4);
        let (d5, r5) = last_edge(d4, r2->Ok_0);
        lemma_edges_only_read(d4, r2->Ok_0);
        lemma_follows_ids(d4, d5);
        lemma_follows_then(doc, d4, d5);
        assert(delete_range(d3, r1->Ok_0, r2->Ok_0) == delete_edges(d5, r4->Ok_0, r5->Ok_0));
        lemma_delete_edges_follows(d5, r4->Ok_0, r5->Ok_0);
        lemma_follows_then(d3, d4, d5);
        lemma_follows_then(d3, d5, delete_edges(d5, r4->Ok_0, r5->Ok_0).0);
        lemma_follows_then(doc, d5, delete_edges(d5, r4->Ok_0, r5->Ok_0).0);
    } else {
        lemma_follows_self(d3);
    }
    let d = delete_text(doc, start, end).0;
    assert(follows(d3, d));
    if start.buffer_id > 0 {
        lemma_delete_ends_read_all(doc, start);
        lemma_still_read(doc, d1, d2, start.buffer_id);
        lemma_still_read(doc, d2, d3, start.buffer_id);
        lemma_still_read(doc, d3, d, start.buffer_id);
    }
    if end.buffer_id > 0 {
        lemma_delete_ends_read_all(d1, end);
        assert(d1.candidates == doc.candidates);
        assert(has_read_all(doc, d2, end.buffer_id));
        lemma_still_read(doc, d2, d3, end.buffer_id);
        lemma_still_read(doc, d3, d, end.buffer_id);
    }
}

// ---------- rows of a chain ----------

/// One of the pieces has the id.
pub open spec fn has_id(pieces: Seq<Piece>, id: i64) -> bool {
    exists|i: int| 0 <= i < pieces.len() && (#[trigger] pieces[i]).id == id
}

/// The row that the piece with the id is.
pub open spec fn row_with(list_number: i64, pieces: Seq<Piece>, id: i64) -> PieceRow {
    row_in(
        list_number,
        pieces,
        choose|i: int| 0 <= i < pieces.len() && (#[trigger] pieces[i]).id == id,
    )
}

/// The document has no rows but those of the chain.
pub open spec fn has_no_others<E>(doc: Doc<E>, pieces: Seq<Piece>) -> bool {
    forall|id: i64| (#[trigger] doc.at(id)) is Ok ==> has_id(pieces, id)
}

/// The document is as it was before an edit.
pub open spec fn is_unedited<E>(doc: Doc<E>) -> bool {
    &&& doc.base == doc.row
    &&& doc.new_ids == Seq::<i64>::empty()
    &&& forall|id: i64| #[trigger] doc.loaded.contains(id) ==> doc.at(id) is Ok
}

/// The rows that an edit adds, in the order of their ids.
pub open spec fn added_rows(list_number: i64, after: Seq<Piece>, from: int, to: int) -> Seq<PieceRowInsert> {
    fresh_ids(from, to).map_values(|id: i64| row_insert(row_with(list_number, after, id)))
}

/// The changes of the rows that were there, in the order of their ids.
pub open spec fn changed_rows(list_number: i64, before: Seq<Piece>, after: Seq<Piece>) -> Seq<
    PieceRowUpdate,
> {
    row_changes(
        ids_where(|id: i64| has_id(before, id)).map_values(
            |id: i64| (row_with(list_number, before, id), row_with(list_number, after, id)),
        ),
    )
}

proof fn lemma_row_with<E>(doc: Doc<E>, pieces: Seq<Piece>, id: i64)
    requires
        is_linked(doc, pieces),
        has_id(pieces, id),
    ensures
        doc.at(id) == Ok::<PieceRow, E>(row_with(doc.list_number, pieces, id)),
        0 < id < doc.next_piece_id,
{
    reveal(is_linked);
    let i = choose|i: int| 0 <= i < pieces.len() && (#[trigger] pieces[i]).id == id;
    assert(doc.at(pieces[i].id) == Ok::<PieceRow, E>(row_in(doc.list_number, pieces, i)));
}

pub proof fn lemma_chain_ids_match<E>(doc: Doc<E>, pieces: Seq<Piece>)
    requires
        is_linked(doc, pieces),
        has_no_others(doc, pieces),
    ensures
        doc.ids_match(),
{
    assert forall|id: i64| (#[trigger] doc.at(id)) is Ok implies doc.at(id)->Ok_0.id == id by {
        lemma_row_with(doc, pieces, id);
    }
}

spec fn ids_of(pieces: Seq<Piece>) -> Seq<i64> {
    Seq::new(pieces.len(), |i: int| pieces[i].id)
}

/// An edit's chain has the ids of the chain before it and those that were added,
/// if it has grown by as many pieces as there are new ids.
proof fn lemma_no_others<E>(start: Doc<E>, before: Seq<Piece>, doc: Doc<E>, after: Seq<Piece>)
    requires
        is_linked(start, before),
        has_no_others(start, before),
        follows(start, doc),
        is_linked(doc, after),
        doc.next_piece_id - start.next_piece_id == after.len() - before.len(),
    ensures
        has_no_others(doc, after),
{
    reveal(follows);
    let fresh = fresh_ids(start.next_piece_id as int, doc.next_piece_id as int);
    let expected = ids_of(before) + fresh;
    let ids = ids_of(after);
    assert forall|id: i64| (#[trigger] doc.at(id)) is Ok implies expected.contains(id) by {
        if start.at(id) is Ok {
            let i = choose|i: int| 0 <= i < before.len() && (#[trigger] before[i]).id == id;
            assert(expected[i] == id);
        } else {
            assert(expected[before.len() + (id - start.next_piece_id)] == id);
        }
    }
    assert(ids.no_duplicates()) by {
        reveal(is_linked);
        assert forall|i: int, j: int| 0 <= i < ids.len() && 0 <= j < ids.len() && i != j implies ids[i]
            != ids[j] by {
            assert(after[i].id != after[j].id);
        }
    }
    ids.unique_seq_to_set();
    expected.lemma_cardinality_of_set();
    assert(ids.to_set().subset_of(expected.to_set())) by {
        assert forall|id: i64| ids.to_set().contains(id) implies expected.to_set().contains(id) by {
            let i = choose|i: int| 0 <= i < ids.len() && ids[i] == id;
            assert(after[i].id == id);
            lemma_row_with(doc, after, id);
        }
    }
    vstd::set_lib::lemma_len_subset(ids.to_set(), expected.to_set());
    vstd::set_lib::lemma_subset_equality(ids.to_set(), expected.to_set());
    assert forall|id: i64| (#[trigger] doc.at(id)) is Ok implies has_id(after, id) by {
        assert(expected.to_set().contains(id));
        assert(ids.to_set().contains(id));
        let i = choose|i: int| 0 <= i < ids.len() && ids[i] == id;
        assert(after[i].id == id);
    }
}

/// Ids whose rows have not changed make no difference to the changes.
pub proof fn lemma_same_changes(
    wanted: spec_fn(i64) -> bool,
    pair: spec_fn(i64) -> (PieceRow, PieceRow),
    all: spec_fn(i64) -> bool,
    all_pair: spec_fn(i64) -> (PieceRow, PieceRow),
    n: int,
)
    requires
        n <= i64::MAX + 1,
        forall|id: i64| #[trigger] wanted(id) ==> all(id) && pair(id) == all_pair(id),
        forall|id: i64|
            #[trigger] all(id) && !wanted(id) ==> row_change(all_pair(id).0, all_pair(id).1) is None,
    ensures
        row_changes(ids_below(wanted, n).map_values(pair)) == row_changes(
            ids_below(all, n).map_values(all_pair),
        ),
    decreases n,
{
    if n > 1 {
        lemma_same_changes(wanted, pair, all, all_pair, n - 1);
        let id = (n - 1) as i64;
        let a = ids_below(wanted, n - 1);
        let b = ids_below(all, n - 1);
        assert(a.push(id).map_values(pair).drop_last() =~= a.map_values(pair));
        assert(b.push(id).map_values(all_pair).drop_last() =~= b.map_values(all_pair));
        assert(wanted(id) || !wanted(id));
        assert(all(id) || !all(id));
    } else {
        assert(ids_below(wanted, n).map_values(pair) =~= ids_below(all, n).map_values(all_pair));
    }
}

/// What an edit writes to rows is settled by the chain before it and the chain
/// after it.
pub proof fn law_chains_settle_rows<E>(start: Doc<E>, before: Seq<Piece>, doc: Doc<E>, after: Seq<Piece>)
    requires
        is_linked(start, before),
        has_no_others(start, before),
        is_unedited(start),
        follows(start, doc),
        is_linked(doc, after),
        doc.next_piece_id - start.next_piece_id == after.len() - before.len(),
    ensures
        doc.piece_inserts() == added_rows(
            start.list_number,
            after,
            start.next_piece_id as int,
            doc.next_piece_id as int,
        ),
        doc.piece_updates() == changed_rows(start.list_number, before, after),
        doc.new_ids == fresh_ids(start.next_piece_id as int, doc.next_piece_id as int),
{
    lemma_no_others(start, before, doc, after);
    reveal(follows);
    let list_number = start.list_number;
    let fresh = fresh_ids(start.next_piece_id as int, doc.next_piece_id as int);
    assert(doc.new_ids =~= fresh);
    assert forall|k: int| 0 <= k < fresh.len() implies #[trigger] doc.piece_inserts()[k] == row_insert(
        row_with(list_number, after, fresh[k]),
    ) by {
        let id = fresh[k];
        assert(doc.at(id) is Ok);
        lemma_row_with(doc, after, id);
    }
    assert(doc.piece_inserts() =~= added_rows(
        list_number,
        after,
        start.next_piece_id as int,
        doc.next_piece_id as int,
    ));
    let wanted = |id: i64| doc.loaded.contains(id) && !doc.new_ids.contains(id);
    let pair = |id: i64| ((doc.base)(id)->Ok_0, doc.at(id)->Ok_0);
    let all = |id: i64| has_id(before, id);
    let all_pair = |id: i64|
        (row_with(list_number, before, id), row_with(list_number, after, id));
    assert forall|id: i64| #[trigger] all(id) implies !doc.new_ids.contains(id) && start.at(id)
        == Ok::<PieceRow, E>(all_pair(id).0) && doc.at(id) == Ok::<PieceRow, E>(all_pair(id).1) by {
        lemma_row_with(start, before, id);
        assert(doc.at(id) is Ok);
        lemma_row_with(doc, after, id);
        if doc.new_ids.contains(id) {
            let k = choose|k: int| 0 <= k < fresh.len() && fresh[k] == id;
            assert(id >= start.next_piece_id);
        }
    }
    assert forall|id: i64| #[trigger] wanted(id) implies all(id) && pair(id) == all_pair(id) by {
        if start.loaded.contains(id) {
            assert(start.at(id) is Ok);
        } else {
            assert(doc.at(id) is Ok);
            if start.at(id) is Err {
                assert(fresh[id - start.next_piece_id] == id);
            }
        }
        assert(has_id(before, id));
        assert(all(id));
        assert((doc.base)(id) == start.at(id));
    }
    assert forall|id: i64| #[trigger] all(id) && !wanted(id) implies row_change(
        all_pair(id).0,
        all_pair(id).1,
    ) is None by {
        assert(!doc.loaded.contains(id));
        assert(doc.at(id) == start.at(id));
    }
    lemma_same_changes(wanted, pair, all, all_pair, i64::MAX + 1);
    assert(doc.existing_ids() == ids_where(wanted));
}

/// An edit's chain has the ids of the chain before it, and those that were added.
pub proof fn lemma_ids_after<E>(start: Doc<E>, before: Seq<Piece>, doc: Doc<E>, after: Seq<Piece>)
    requires
        is_linked(start, before),
        has_no_others(start, before),
        follows(start, doc),
        is_linked(doc, after),
        doc.next_piece_id - start.next_piece_id == after.len() - before.len(),
    ensures
        distinct(before),
        distinct(after),
        forall|id: i64| #[trigger]
            has_id(after, id) <==> has_id(before, id) || start.next_piece_id <= id < doc.next_piece_id,
{
    lemma_no_others(start, before, doc, after);
    reveal(is_linked);
    reveal(follows);
    assert forall|id: i64| #[trigger] has_id(after, id) <==> has_id(before, id) || start.next_piece_id
        <= id < doc.next_piece_id by {
        if has_id(after, id) {
            lemma_row_with(doc, after, id);
            assert(doc.at(id) is Ok);
        }
        if has_id(before, id) {
            lemma_row_with(start, before, id);
            assert(doc.at(id) is Ok);
        }
        if start.next_piece_id <= id < doc.next_piece_id {
            assert(doc.at(id) is Ok);
        }
    }
}

/// The ranges that were found are those of the chain before the edit.
pub proof fn lemma_found_coords<E>(start: Doc<E>, before: Seq<Piece>, doc: Doc<E>, k: int)
    requires
        is_linked(start, before),
        has_no_others(start, before),
        is_unedited(start),
        follows(start, doc),
        0 <= k < doc.found_coords().len(),
    ensures
        has_id(before, doc.found_coords()[k].0),
        doc.found_coords()[k].1 == row_with(
            start.list_number,
            before,
            doc.found_coords()[k].0,
        ).coord,
{
    reveal(follows);
    let wanted = |id: i64| doc.loaded.contains(id) && !doc.new_ids.contains(id);
    lemma_ids_below(wanted, i64::MAX + 1);
    assert(doc.existing_ids() == ids_where(wanted));
    let id = doc.existing_ids()[k];
    assert(doc.found_coords()[k].0 == id);
    assert(wanted(id));
    if start.loaded.contains(id) {
        assert(start.at(id) is Ok);
    } else {
        assert(doc.at(id) is Ok);
        let fresh = fresh_ids(start.next_piece_id as int, doc.next_piece_id as int);
        assert(doc.new_ids =~= fresh);
        if start.at(id) is Err {
            assert(fresh[id - start.next_piece_id] == id);
        }
    }
    assert(has_id(before, id));
    lemma_row_with(start, before, id);
}

} // verus!
