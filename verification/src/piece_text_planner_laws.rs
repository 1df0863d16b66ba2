//! Which snapshots are planned on, and the buffers that plans add.

use vstd::prelude::*;

use crate::piece_text::PieceTextEditItemManifest;
use crate::piece_text_inserts::{inserts_before, lemma_inserts_ascend, lemma_inserts_before, lemma_inserts_next};
use crate::piece_text_planner::{
    buffers_fault, endpoints_fault, first_fault, lengths_by_id, links_fault, plan, plan_start, range_fault,
    rows_by_id, rows_fault, snapshot_fault, BufferInsertView, BufferMeta, BufferSnapshot, PieceRow, PieceSnapshot,
    PlanState, PlannerError, PlannerInput,
};
use crate::piece_text_snapshot_laws::{ids_differ, lemma_rows_by_id};
use crate::piece_text_staging::{ids_where, lemma_ids_below};

verus! {

// ---------- snapshots ----------

/// One of the rows has the id.
pub open spec fn has_row_with(rows: Seq<PieceRow>, id: i64) -> bool {
    exists|i: int| 0 <= i < rows.len() && (#[trigger] rows[i]).id == id
}

/// A row by itself: its id is free to be one, it is of the list, and it has bytes.
pub open spec fn is_row_of(list_number: i64, next_id: i64, row: PieceRow) -> bool {
    0 < row.id < next_id && row.list_number == list_number && row.coord.len_bytes > 0
}

/// Before the row is another that leads to it, or it is the first.
pub open spec fn is_after_something(rows: Seq<PieceRow>, head_id: i64, row: PieceRow) -> bool {
    if row.prev_id == 0 {
        row.id == head_id
    } else {
        exists|j: int| 0 <= j < rows.len() && (#[trigger] rows[j]).id == row.prev_id && rows[j].next_id == row.id
    }
}

/// After the row is another that leads back to it, or it is the last.
pub open spec fn is_before_something(rows: Seq<PieceRow>, tail_id: i64, row: PieceRow) -> bool {
    if row.next_id == 0 {
        row.id == tail_id
    } else {
        exists|j: int| 0 <= j < rows.len() && (#[trigger] rows[j]).id == row.next_id && rows[j].prev_id == row.id
    }
}

/// The document's first row is a row with none before it, its last row one with none
/// after it, or it has neither.
pub open spec fn has_ends(rows: Seq<PieceRow>, head_id: i64, tail_id: i64) -> bool {
    &&& head_id == 0 <==> tail_id == 0
    &&& head_id != 0 ==> exists|i: int|
        0 <= i < rows.len() && (#[trigger] rows[i]).id == head_id && rows[i].prev_id == 0
    &&& tail_id != 0 ==> exists|i: int|
        0 <= i < rows.len() && (#[trigger] rows[i]).id == tail_id && rows[i].next_id == 0
}

/// A buffer by itself: its id is free to be one, and it is neither empty nor too long.
pub open spec fn is_buffer(next_id: i64, buffer: BufferMeta) -> bool {
    0 < buffer.id < next_id && 0 < buffer.len_bytes <= 4194304
}

/// No two buffers have the same id.
pub open spec fn buffers_differ(buffers: Seq<BufferMeta>) -> bool {
    forall|i: int, j: int| 0 <= i < j < buffers.len() ==> (#[trigger] buffers[i]).id != (#[trigger] buffers[j]).id
}

/// The row lies in one of the buffers.
pub open spec fn lies_in_one(buffers: Seq<BufferMeta>, row: PieceRow) -> bool {
    exists|j: int|
        0 <= j < buffers.len() && (#[trigger] buffers[j]).id == row.coord.buffer_id && row.coord.start_byte
            + row.coord.len_bytes <= buffers[j].len_bytes
}

proof fn lemma_rows_accepted(list_number: i64, next_id: i64, rows: Seq<PieceRow>)
    ensures
        rows_fault(list_number, next_id, rows) is None <==> ids_differ(rows) && forall|i: int|
            0 <= i < rows.len() ==> is_row_of(list_number, next_id, #[trigger] rows[i]),
    decreases rows.len(),
{
    if rows.len() > 0 {
        let rest = rows.drop_last();
        let last = rows.last();
        let n = rows.len() - 1;
        lemma_rows_accepted(list_number, next_id, rest);
        assert(rows[n] == last);
        assert forall|i: int| 0 <= i < n implies #[trigger] rest[i] == rows[i] by {}
        if ids_differ(rest) {
            lemma_rows_by_id(rest);
        }
        if rows_fault(list_number, next_id, rows) is None {
            assert forall|i: int, j: int| 0 <= i < j < rows.len() implies (#[trigger] rows[i]).id != (
            #[trigger] rows[j]).id by {
                if j < n {
                    assert(rest[i].id != rest[j].id);
                } else {
                    assert(rows_by_id(rest).contains_key(rest[i].id));
                }
            }
            assert forall|i: int| 0 <= i < rows.len() implies is_row_of(list_number, next_id, #[trigger] rows[i]) by {
                if i < n {
                    assert(is_row_of(list_number, next_id, rest[i]));
                }
            }
        }
        if ids_differ(rows) && forall|i: int|
            0 <= i < rows.len() ==> is_row_of(list_number, next_id, #[trigger] rows[i]) {
            assert forall|i: int, j: int| 0 <= i < j < rest.len() implies (#[trigger] rest[i]).id != (
            #[trigger] rest[j]).id by {
                assert(rows[i].id != rows[j].id);
            }
            assert forall|i: int| 0 <= i < rest.len() implies is_row_of(list_number, next_id, #[trigger] rest[i]) by {
                assert(is_row_of(list_number, next_id, rows[i]));
            }
            lemma_rows_by_id(rest);
            if rows_by_id(rest).contains_key(last.id) {
                let i = choose|i: int| 0 <= i < rest.len() && (#[trigger] rest[i]).id == last.id;
                assert(rows[i].id == rows[n].id);
            }
        }
    }
}

proof fn lemma_lengths_by_id(buffers: Seq<BufferMeta>)
    requires
        buffers_differ(buffers),
    ensures
        forall|i: int|
            0 <= i < buffers.len() ==> lengths_by_id(buffers).contains_key((#[trigger] buffers[i]).id)
                && lengths_by_id(buffers)[buffers[i].id] == buffers[i].len_bytes,
        forall|id: i64| #[trigger]
            lengths_by_id(buffers).contains_key(id) ==> exists|i: int|
                0 <= i < buffers.len() && (#[trigger] buffers[i]).id == id,
    decreases buffers.len(),
{
    if buffers.len() > 0 {
        let rest = buffers.drop_last();
        let n = buffers.len() - 1;
        assert(buffers[n] == buffers.last());
        assert forall|i: int, j: int| 0 <= i < j < rest.len() implies (#[trigger] rest[i]).id != (
        #[trigger] rest[j]).id by {
            assert(buffers[i].id != buffers[j].id);
        }
        lemma_lengths_by_id(rest);
        assert forall|i: int| 0 <= i < buffers.len() implies lengths_by_id(buffers).contains_key(
            (#[trigger] buffers[i]).id,
        ) && lengths_by_id(buffers)[buffers[i].id] == buffers[i].len_bytes by {
            if i < n {
                assert(rest[i] == buffers[i]);
                assert(buffers[i].id != buffers[n].id);
            }
        }
        assert forall|id: i64| #[trigger] lengths_by_id(buffers).contains_key(id) implies exists|i: int|
            0 <= i < buffers.len() && (#[trigger] buffers[i]).id == id by {
            if id == buffers[n].id {
                assert(buffers[n].id == id);
            } else {
                assert(lengths_by_id(rest).contains_key(id));
                let i = choose|i: int| 0 <= i < rest.len() && (#[trigger] rest[i]).id == id;
                assert(buffers[i].id == id);
            }
        }
    }
}

proof fn lemma_buffers_accepted(next_id: i64, buffers: Seq<BufferMeta>)
    ensures
        buffers_fault(next_id, buffers) is None <==> buffers_differ(buffers) && forall|i: int|
            0 <= i < buffers.len() ==> is_buffer(next_id, #[trigger] buffers[i]),
    decreases buffers.len(),
{
    if buffers.len() > 0 {
        let rest = buffers.drop_last();
        let last = buffers.last();
        let n = buffers.len() - 1;
        lemma_buffers_accepted(next_id, rest);
        assert(buffers[n] == last);
        assert forall|i: int| 0 <= i < n implies #[trigger] rest[i] == buffers[i] by {}
        if buffers_differ(rest) {
            lemma_lengths_by_id(rest);
        }
        if buffers_fault(next_id, buffers) is None {
            assert forall|i: int, j: int| 0 <= i < j < buffers.len() implies (#[trigger] buffers[i]).id != (
            #[trigger] buffers[j]).id by {
                if j < n {
                    assert(rest[i].id != rest[j].id);
                } else {
                    assert(lengths_by_id(rest).contains_key(rest[i].id));
                }
            }
            assert forall|i: int| 0 <= i < buffers.len() implies is_buffer(next_id, #[trigger] buffers[i]) by {
                if i < n {
                    assert(is_buffer(next_id, rest[i]));
                }
            }
        }
        if buffers_differ(buffers) && forall|i: int|
            0 <= i < buffers.len() ==> is_buffer(next_id, #[trigger] buffers[i]) {
            assert forall|i: int, j: int| 0 <= i < j < rest.len() implies (#[trigger] rest[i]).id != (
            #[trigger] rest[j]).id by {
                assert(buffers[i].id != buffers[j].id);
            }
            assert forall|i: int| 0 <= i < rest.len() implies is_buffer(next_id, #[trigger] rest[i]) by {
                assert(is_buffer(next_id, buffers[i]));
            }
            lemma_lengths_by_id(rest);
            if lengths_by_id(rest).contains_key(last.id) {
                let i = choose|i: int| 0 <= i < rest.len() && (#[trigger] rest[i]).id == last.id;
                assert(buffers[i].id == buffers[n].id);
            }
        }
    }
}

proof fn lemma_no_faults(ids: Seq<i64>, fault: spec_fn(i64) -> Option<PlannerError>)
    ensures
        first_fault(ids, fault) is None <==> forall|i: int| 0 <= i < ids.len() ==> fault(#[trigger] ids[i]) is None,
    decreases ids.len(),
{
    if ids.len() > 0 {
        let rest = ids.drop_last();
        lemma_no_faults(rest, fault);
        assert(ids[ids.len() - 1] == ids.last());
        if first_fault(rest, fault) is Some {
            let i = choose|i: int| 0 <= i < rest.len() && fault(#[trigger] rest[i]) is Some;
            assert(ids[i] == rest[i]);
        } else {
            assert forall|i: int| 0 <= i < rest.len() implies fault(#[trigger] ids[i]) is None by {
                assert(rest[i] == ids[i]);
            }
        }
    }
}

/// A check of every row by id is a check of every row.
proof fn lemma_each_row(rows: Seq<PieceRow>, fault: spec_fn(i64) -> Option<PlannerError>)
    requires
        ids_differ(rows),
        forall|i: int| 0 <= i < rows.len() ==> (#[trigger] rows[i]).id > 0,
    ensures
        ({
            let ids = ids_where(|id: i64| rows_by_id(rows).contains_key(id));
            first_fault(ids, fault) is None <==> forall|i: int|
                0 <= i < rows.len() ==> fault((#[trigger] rows[i]).id) is None
        }),
{
    let wanted = |id: i64| rows_by_id(rows).contains_key(id);
    let ids = ids_where(wanted);
    lemma_ids_below(wanted, i64::MAX + 1);
    lemma_rows_by_id(rows);
    lemma_no_faults(ids, fault);
    if first_fault(ids, fault) is None {
        assert forall|i: int| 0 <= i < rows.len() implies fault((#[trigger] rows[i]).id) is None by {
            let id = rows[i].id;
            assert(wanted(id));
            assert(ids.contains(id));
            let k = ids.index_of(id);
            assert(fault(ids[k]) is None);
        }
    } else {
        let k = choose|k: int| 0 <= k < ids.len() && fault(#[trigger] ids[k]) is Some;
        assert(wanted(ids[k]));
        let i = choose|i: int| 0 <= i < rows.len() && (#[trigger] rows[i]).id == ids[k];
        assert(fault(rows[i].id) is Some);
    }
}

/// A snapshot is planned on if and only if its counters and its list are positive;
/// its rows are rows of the list with ids of their own below the counter, linked both
/// ways between its ends; its buffers have ids of their own below theirs and a length
/// that a buffer may have; and every row lies in one of the buffers.
pub proof fn law_snapshot_accepted(pieces: PieceSnapshot, buffers: BufferSnapshot)
    ensures
        snapshot_fault(pieces, buffers) is None <==> {
            let rows = pieces.pieces@;
            &&& pieces.pre_piece_next_id >= 1
            &&& buffers.pre_buffers_next_id >= 1
            &&& pieces.list_number > 0
            &&& ids_differ(rows)
            &&& forall|i: int|
                0 <= i < rows.len() ==> is_row_of(pieces.list_number, pieces.pre_piece_next_id, #[trigger] rows[i])
            &&& has_ends(rows, pieces.head_id, pieces.tail_id)
            &&& forall|i: int|
                0 <= i < rows.len() ==> is_after_something(rows, pieces.head_id, #[trigger] rows[i])
                    && is_before_something(rows, pieces.tail_id, rows[i])
            &&& buffers_differ(buffers.buffers@)
            &&& forall|i: int|
                0 <= i < buffers.buffers@.len() ==> is_buffer(
                    buffers.pre_buffers_next_id,
                    #[trigger] buffers.buffers@[i],
                )
            &&& forall|i: int| 0 <= i < rows.len() ==> lies_in_one(buffers.buffers@, #[trigger] rows[i])
        },
{
    let rows = pieces.pieces@;
    let by_id = rows_by_id(rows);
    let metas = buffers.buffers@;
    let lengths = lengths_by_id(metas);
    let (head_id, tail_id) = (pieces.head_id, pieces.tail_id);
    lemma_rows_accepted(pieces.list_number, pieces.pre_piece_next_id, rows);
    lemma_buffers_accepted(buffers.pre_buffers_next_id, metas);
    if rows_fault(pieces.list_number, pieces.pre_piece_next_id, rows) is None {
        lemma_rows_by_id(rows);
        assert forall|i: int| 0 <= i < rows.len() implies (#[trigger] rows[i]).id > 0 by {
            assert(is_row_of(pieces.list_number, pieces.pre_piece_next_id, rows[i]));
        }
        assert(!has_row_with(rows, 0));
        assert forall|id: i64| #[trigger] by_id.contains_key(id) implies exists|i: int|
            0 <= i < rows.len() && (#[trigger] rows[i]).id == id && by_id[id] == rows[i] by {
            let i = choose|i: int| 0 <= i < rows.len() && (#[trigger] rows[i]).id == id;
            assert(by_id[rows[i].id] == rows[i]);
        }
        assert(endpoints_fault(by_id, head_id, tail_id) is None <==> has_ends(rows, head_id, tail_id)) by {
            if has_ends(rows, head_id, tail_id) && head_id != 0 {
                let i = choose|i: int|
                    0 <= i < rows.len() && (#[trigger] rows[i]).id == head_id && rows[i].prev_id == 0;
                assert(by_id[rows[i].id] == rows[i]);
                let j = choose|j: int|
                    0 <= j < rows.len() && (#[trigger] rows[j]).id == tail_id && rows[j].next_id == 0;
                assert(by_id[rows[j].id] == rows[j]);
            }
        }
        let links = |id: i64| links_fault(by_id, head_id, tail_id, by_id[id]);
        let ranges = |id: i64| range_fault(lengths, by_id[id]);
        lemma_each_row(rows, links);
        lemma_each_row(rows, ranges);
        assert forall|i: int| 0 <= i < rows.len() implies (links((#[trigger] rows[i]).id) is None <==> is_after_something(
            rows,
            head_id,
            rows[i],
        ) && is_before_something(rows, tail_id, rows[i])) by {
            let row = rows[i];
            assert(by_id[row.id] == row);
            if is_after_something(rows, head_id, row) && row.prev_id != 0 {
                let j = choose|j: int|
                    0 <= j < rows.len() && (#[trigger] rows[j]).id == row.prev_id && rows[j].next_id == row.id;
                assert(by_id[rows[j].id] == rows[j]);
            }
            if is_before_something(rows, tail_id, row) && row.next_id != 0 {
                let j = choose|j: int|
                    0 <= j < rows.len() && (#[trigger] rows[j]).id == row.next_id && rows[j].prev_id == row.id;
                assert(by_id[rows[j].id] == rows[j]);
            }
        }
        if buffers_fault(buffers.pre_buffers_next_id, metas) is None {
            lemma_lengths_by_id(metas);
            assert forall|i: int| 0 <= i < rows.len() implies (ranges((#[trigger] rows[i]).id) is None
                <==> lies_in_one(metas, rows[i])) by {
                let row = rows[i];
                assert(by_id[row.id] == row);
                if lies_in_one(metas, row) {
                    let j = choose|j: int|
                        0 <= j < metas.len() && (#[trigger] metas[j]).id == row.coord.buffer_id && row.coord.start_byte
                            + row.coord.len_bytes <= metas[j].len_bytes;
                    assert(lengths[metas[j].id] == metas[j].len_bytes);
                }
                if ranges(row.id) is None {
                    let j = choose|j: int| 0 <= j < metas.len() && (#[trigger] metas[j]).id == row.coord.buffer_id;
                    assert(lengths[metas[j].id] == metas[j].len_bytes);
                }
            }
        }
    }
}

// ---------- buffers ----------

/// The buffers that operations have added to a plan: one for each insert, in order,
/// with the next ids.
spec fn has_planned(start: PlanState, ops: Seq<PieceTextEditItemManifest>, state: PlanState) -> bool {
    let n = ops.len() as int;
    &&& state.owner == start.owner
    &&& state.author_id == start.author_id
    &&& state.next_buffer_id == start.next_buffer_id + inserts_before(ops, n)
    &&& state.buffers.len() == inserts_before(ops, n)
    &&& forall|i: int|
        0 <= i < n ==> ((#[trigger] ops[i]) matches PieceTextEditItemManifest::Insert { inserted, .. }
            ==> state.buffers[inserts_before(ops, i)] == (BufferInsertView {
            new_id: (start.next_buffer_id + inserts_before(ops, i)) as i64,
            owner: start.owner,
            author_id: start.author_id,
            len_bytes: inserted.len_bytes,
            ciphertext_value_hash: inserted.ciphertext_value_hash,
        }))
}

proof fn lemma_plan_step(before: PlanState, index: int, op: PieceTextEditItemManifest)
    requires
        before.step(index, op).1 is Ok,
    ensures
        ({
            let after = before.step(index, op).0;
            &&& after.owner == before.owner
            &&& after.author_id == before.author_id
            &&& match op {
                PieceTextEditItemManifest::Insert { inserted, .. } => before.next_buffer_id < i64::MAX
                    && after.next_buffer_id == before.next_buffer_id + 1 && after.buffers == before.with_buffer(
                    inserted,
                ).buffers,
                PieceTextEditItemManifest::Delete { .. } => after.next_buffer_id == before.next_buffer_id
                    && after.buffers == before.buffers,
            }
        }),
{
    reveal(PlanState::step);
}

proof fn lemma_has_planned(start: PlanState, ops: Seq<PieceTextEditItemManifest>)
    requires
        start.buffers.len() == 0,
        start.steps(ops).1 is Ok,
    ensures
        has_planned(start, ops, start.steps(ops).0),
    decreases ops.len(),
{
    if ops.len() == 0 {
        reveal(inserts_before);
    } else {
        let rest = ops.drop_last();
        let last = ops.len() - 1;
        lemma_has_planned(start, rest);
        lemma_inserts_next(ops, last);
        lemma_inserts_before(rest, ops, last);
        let before = start.steps(rest).0;
        lemma_plan_step(before, last, ops.last());
        let state = start.steps(ops).0;
        assert(ops[last] == ops.last());
        assert forall|i: int| 0 <= i < ops.len() implies ((#[trigger] ops[i]) matches PieceTextEditItemManifest::Insert {
            inserted,
            ..
        } ==> state.buffers[inserts_before(ops, i)] == (BufferInsertView {
            new_id: (start.next_buffer_id + inserts_before(ops, i)) as i64,
            owner: start.owner,
            author_id: start.author_id,
            len_bytes: inserted.len_bytes,
            ciphertext_value_hash: inserted.ciphertext_value_hash,
        })) by {
            if i < last {
                assert(rest[i] == ops[i]);
                lemma_inserts_before(rest, ops, i);
                if ops[i] is Insert {
                    lemma_inserts_next(ops, i);
                    lemma_inserts_ascend(rest, i + 1, last);
                    lemma_inserts_before(rest, ops, i + 1);
                }
            }
        }
    }
}

/// A plan adds a buffer of its own for every insert, in order and with the next free
/// ids: with that insert's length and hash, the author given, and the document as the
/// owner; and it moves the counter behind them, where there are any.
pub proof fn law_plan_adds_buffers(input: PlannerInput)
    ensures
        plan(input) matches Ok(output) ==> {
            let ops = input.envelope.edit.ops@;
            let total = inserts_before(ops, ops.len() as int);
            let next = input.buffers.pre_buffers_next_id;
            &&& output.buffer_inserts.len() == total
            &&& output.buffers_next_id_post == (if total > 0 {
                Some((next + total) as i64)
            } else {
                None
            })
            &&& forall|i: int|
                0 <= i < ops.len() ==> ((#[trigger] ops[i]) matches PieceTextEditItemManifest::Insert { inserted, .. }
                    ==> output.buffer_inserts[inserts_before(ops, i)] == (BufferInsertView {
                    new_id: (next + inserts_before(ops, i)) as i64,
                    owner: input.envelope.address@,
                    author_id: input.author_id,
                    len_bytes: inserted.len_bytes,
                    ciphertext_value_hash: inserted.ciphertext_value_hash,
                }))
        },
{
    if plan(input) is Ok {
        let ops = input.envelope.edit.ops@;
        lemma_has_planned(plan_start(input), ops);
        lemma_inserts_before(ops, ops, ops.len() as int);
    }
}

} // verus!
