//! What a plan leaves of the snapshot that it was made on, once it is written.

use vstd::prelude::*;

use crate::piece_text::{PieceTextEditItemManifest, MAX_BUFFER_LEN_BYTES};
use crate::piece_text_chain::apart;
use crate::piece_text_edit_laws::lemma_buffer_ids;
use crate::piece_text_edit_writes::{
    follows, fresh_ids, is_unedited, lemma_delete_follows, lemma_follows_self, lemma_follows_then,
    lemma_insert_follows,
};
use crate::piece_text_net_changes::{lemma_net_changes, net_change, row_settled, settled, was_there};
use crate::piece_text_overlay::whole_buffer;
use crate::piece_text_planner::{
    buffers_fault, first_fault, lemma_no_fault, lengths_by_id, links_fault, plan, plan_start,
    range_fault, rows_by_id, rows_fault, snapshot_doc, snapshot_fault, BufferInsertView, BufferMeta,
    BufferSnapshot, OutputView, PieceRow, PieceRowInsert, PieceRowUpdate, PieceSnapshot, PlanState,
    PlannerError, PlannerInput,
};
use crate::piece_text_resolution::Doc;
use crate::piece_text_staging::{ids_where, lemma_ids_below};
use crate::piece_text_upkeep::{
    all_apart, ends_sound, is_unused, lemma_delete_sound, lemma_insert_sound, lemma_more_buffers,
    lemma_sound_ids, pair_apart, row_sound, sound, stays_apart,
};

verus! {

// ---------- an output, written ----------

pub open spec fn inserted_row(insert: PieceRowInsert) -> PieceRow {
    PieceRow {
        id: insert.new_id,
        list_number: insert.list_number,
        prev_id: insert.prev_id,
        next_id: insert.next_id,
        coord: insert.coord,
    }
}

/// Rows with new ones among them.
pub open spec fn with_inserts(rows: Map<i64, PieceRow>, inserts: Seq<PieceRowInsert>) -> Map<i64, PieceRow>
    decreases inserts.len(),
{
    if inserts.len() == 0 {
        rows
    } else {
        with_inserts(rows, inserts.drop_last()).insert(
            inserts.last().new_id,
            inserted_row(inserts.last()),
        )
    }
}

/// A row with the fields that an update holds.
pub open spec fn updated_row(row: PieceRow, update: PieceRowUpdate) -> PieceRow {
    PieceRow {
        prev_id: match update.prev_id {
            Some(id) => id,
            None => row.prev_id,
        },
        next_id: match update.next_id {
            Some(id) => id,
            None => row.next_id,
        },
        coord: match update.coord {
            Some(coord) => coord,
            None => row.coord,
        },
        ..row
    }
}

/// Rows with updates made one after the other.
pub open spec fn with_updates(rows: Map<i64, PieceRow>, updates: Seq<PieceRowUpdate>) -> Map<i64, PieceRow>
    decreases updates.len(),
{
    if updates.len() == 0 {
        rows
    } else {
        let before = with_updates(rows, updates.drop_last());
        let update = updates.last();
        before.insert(update.id, updated_row(before[update.id], update))
    }
}

/// The rows once an output is written.
pub open spec fn rows_written(rows: Map<i64, PieceRow>, output: OutputView) -> Map<i64, PieceRow> {
    with_updates(with_inserts(rows, output.piece_inserts), output.piece_updates)
}

/// The new value, if there is one.
pub open spec fn replaced_by(before: i64, update: Option<i64>) -> i64 {
    match update {
        Some(id) => id,
        None => before,
    }
}

/// No two rows have the same id.
pub open spec fn ids_differ(rows: Seq<PieceRow>) -> bool {
    forall|i: int, j: int| 0 <= i < j < rows.len() ==> (#[trigger] rows[i]).id != (#[trigger] rows[j]).id
}

/// A snapshot of a document once an output is written, its rows in any order.
pub open spec fn pieces_written(before: PieceSnapshot, output: OutputView, after: PieceSnapshot) -> bool {
    &&& after.list_number == before.list_number
    &&& after.head_id == replaced_by(before.head_id, output.head_update)
    &&& after.tail_id == replaced_by(before.tail_id, output.tail_update)
    &&& after.pre_piece_next_id == replaced_by(before.pre_piece_next_id, output.piece_next_id_post)
    &&& ids_differ(after.pieces@)
    &&& rows_by_id(after.pieces@) == rows_written(rows_by_id(before.pieces@), output)
}

/// The buffer that an output adds.
pub open spec fn is_added_buffer(buffer: BufferMeta, insert: BufferInsertView) -> bool {
    &&& buffer.id == insert.new_id
    &&& buffer.owner_table@ == insert.owner.table
    &&& buffer.owner_row_id == insert.owner.row_id
    &&& buffer.owner_column@ == insert.owner.column
    &&& buffer.author_id == insert.author_id
    &&& buffer.len_bytes == insert.len_bytes
}

/// The buffers once an output is written: those from before, and those that it
/// adds behind them.
pub open spec fn buffers_written(before: BufferSnapshot, output: OutputView, after: BufferSnapshot) -> bool {
    let n = before.buffers@.len();
    &&& after.pre_buffers_next_id == replaced_by(before.pre_buffers_next_id, output.buffers_next_id_post)
    &&& after.buffers@.len() == n + output.buffer_inserts.len()
    &&& forall|i: int|
        0 <= i < n ==> (#[trigger] after.buffers@[i]).id == before.buffers@[i].id
            && after.buffers@[i].len_bytes == before.buffers@[i].len_bytes
    &&& forall|i: int|
        n <= i < after.buffers@.len() ==> is_added_buffer(
            #[trigger] after.buffers@[i],
            output.buffer_inserts[i - n],
        )
}

// ---------- rows of a document ----------

/// The rows that a document holds.
pub open spec fn doc_rows<E>(doc: Doc<E>) -> Map<i64, PieceRow> {
    Map::new(|id: i64| doc.at(id) is Ok, |id: i64| doc.at(id)->Ok_0)
}

proof fn lemma_with_inserts(rows: Map<i64, PieceRow>, inserts: Seq<PieceRowInsert>)
    requires
        forall|i: int, j: int|
            0 <= i < j < inserts.len() ==> (#[trigger] inserts[i]).new_id != (#[trigger] inserts[j]).new_id,
    ensures
        forall|id: i64| #[trigger]
            with_inserts(rows, inserts).contains_key(id) <==> rows.contains_key(id) || exists|i: int|
                0 <= i < inserts.len() && (#[trigger] inserts[i]).new_id == id,
        forall|i: int|
            0 <= i < inserts.len() ==> with_inserts(rows, inserts)[(#[trigger] inserts[i]).new_id]
                == inserted_row(inserts[i]),
        forall|id: i64|
            (forall|i: int| 0 <= i < inserts.len() ==> (#[trigger] inserts[i]).new_id != id)
                ==> #[trigger] with_inserts(rows, inserts)[id] == rows[id],
    decreases inserts.len(),
{
    if inserts.len() > 0 {
        let rest = inserts.drop_last();
        assert forall|i: int, j: int| 0 <= i < j < rest.len() implies (#[trigger] rest[i]).new_id != (
        #[trigger] rest[j]).new_id by {
            assert(inserts[i].new_id != inserts[j].new_id);
        }
        lemma_with_inserts(rows, rest);
        let all = with_inserts(rows, inserts);
        let last = inserts.len() - 1;
        assert(inserts.last() == inserts[last]);
        assert forall|id: i64| #[trigger]
            all.contains_key(id) <==> rows.contains_key(id) || exists|i: int|
                0 <= i < inserts.len() && (#[trigger] inserts[i]).new_id == id by {
            if with_inserts(rows, rest).contains_key(id) && !rows.contains_key(id) {
                let i = choose|i: int| 0 <= i < rest.len() && (#[trigger] rest[i]).new_id == id;
                assert(inserts[i].new_id == id);
            }
            if exists|i: int| 0 <= i < inserts.len() && (#[trigger] inserts[i]).new_id == id {
                let i = choose|i: int| 0 <= i < inserts.len() && (#[trigger] inserts[i]).new_id == id;
                if i < last {
                    assert(rest[i].new_id == id);
                }
            }
        }
        assert forall|i: int| 0 <= i < inserts.len() implies all[(#[trigger] inserts[i]).new_id]
            == inserted_row(inserts[i]) by {
            if i < last {
                assert(rest[i] == inserts[i]);
                assert(inserts[i].new_id != inserts[last].new_id);
            }
        }
        assert forall|id: i64|
            (forall|i: int| 0 <= i < inserts.len() ==> (#[trigger] inserts[i]).new_id != id) implies
            #[trigger] all[id] == rows[id] by {
            assert(inserts[last].new_id != id);
            assert forall|i: int| 0 <= i < rest.len() implies (#[trigger] rest[i]).new_id != id by {
                assert(inserts[i].new_id != id);
            }
            assert(with_inserts(rows, rest)[id] == rows[id]);
        }
    }
}

proof fn lemma_with_updates(rows: Map<i64, PieceRow>, updates: Seq<PieceRowUpdate>)
    requires
        forall|i: int| 0 <= i < updates.len() ==> rows.contains_key((#[trigger] updates[i]).id),
        forall|i: int, j: int|
            0 <= i < j < updates.len() ==> (#[trigger] updates[i]).id < (#[trigger] updates[j]).id,
    ensures
        with_updates(rows, updates).dom() == rows.dom(),
        forall|i: int|
            0 <= i < updates.len() ==> with_updates(rows, updates)[(#[trigger] updates[i]).id]
                == updated_row(rows[updates[i].id], updates[i]),
        forall|id: i64|
            (forall|i: int| 0 <= i < updates.len() ==> (#[trigger] updates[i]).id != id)
                ==> #[trigger] with_updates(rows, updates)[id] == rows[id],
    decreases updates.len(),
{
    if updates.len() > 0 {
        let rest = updates.drop_last();
        assert forall|i: int| 0 <= i < rest.len() implies rows.contains_key((#[trigger] rest[i]).id) by {
            assert(rest[i] == updates[i]);
        }
        assert forall|i: int, j: int| 0 <= i < j < rest.len() implies (#[trigger] rest[i]).id < (
        #[trigger] rest[j]).id by {
            assert(updates[i].id < updates[j].id);
        }
        lemma_with_updates(rows, rest);
        let all = with_updates(rows, updates);
        let last = updates.len() - 1;
        assert(updates.last() == updates[last]);
        assert(with_updates(rows, rest)[updates[last].id] == rows[updates[last].id]) by {
            assert forall|i: int| 0 <= i < rest.len() implies (#[trigger] rest[i]).id != updates[last].id by {
                assert(updates[i].id < updates[last].id);
            }
        }
        assert(all.dom() =~= rows.dom());
        assert forall|i: int| 0 <= i < updates.len() implies all[(#[trigger] updates[i]).id] == updated_row(
            rows[updates[i].id],
            updates[i],
        ) by {
            if i < last {
                assert(rest[i] == updates[i]);
                assert(updates[i].id < updates[last].id);
            }
        }
        assert forall|id: i64|
            (forall|i: int| 0 <= i < updates.len() ==> (#[trigger] updates[i]).id != id) implies
            #[trigger] all[id] == rows[id] by {
            assert(updates[last].id != id);
            assert forall|i: int| 0 <= i < rest.len() implies (#[trigger] rest[i]).id != id by {
                assert(updates[i].id != id);
            }
            assert(with_updates(rows, rest)[id] == rows[id]);
        }
    }
}

/// In the course of an edit of a sound document, rows that were not read are as
/// they were.
proof fn lemma_follows_settled<E>(start: Doc<E>, doc: Doc<E>, lengths: Map<i64, u32>, after: Map<i64, u32>)
    requires
        is_unedited(start),
        sound(start, lengths),
        follows(start, doc),
        sound(doc, after),
    ensures
        settled(doc),
        doc.list_number == start.list_number,
        start.next_piece_id <= doc.next_piece_id,
        doc.new_ids == fresh_ids(start.next_piece_id as int, doc.next_piece_id as int),
        forall|id: i64| #[trigger]
            doc.new_ids.contains(id) <==> start.next_piece_id <= id < doc.next_piece_id,
        forall|id: i64|
            (#[trigger] doc.at(id)) is Ok <==> start.at(id) is Ok || doc.new_ids.contains(id),
        forall|id: i64| (#[trigger] start.at(id)) is Ok ==> !doc.new_ids.contains(id),
{
    reveal(follows);
    let fresh = fresh_ids(start.next_piece_id as int, doc.next_piece_id as int);
    assert(doc.new_ids =~= fresh);
    assert forall|id: i64| #[trigger]
        doc.new_ids.contains(id) <==> start.next_piece_id <= id < doc.next_piece_id by {
        if start.next_piece_id <= id < doc.next_piece_id {
            assert(fresh[id - start.next_piece_id] == id);
        }
    }
    assert forall|id: i64| (#[trigger] start.at(id)) is Ok implies !doc.new_ids.contains(id) by {
        assert(row_sound(start, lengths, id));
    }
    assert forall|id: i64| #[trigger] row_settled(doc, id) by {
        assert(row_sound(start, lengths, id));
        assert(row_sound(doc, after, id));
        assert(start.at(id) == (doc.base)(id));
        assert(doc.at(id) is Ok <==> start.at(id) is Ok || start.next_piece_id <= id < doc.next_piece_id);
        if !doc.loaded.contains(id) {
            assert(doc.at(id) == start.at(id));
        }
    }
    assert forall|id: i64| (#[trigger] (doc.base)(id)) is Ok implies (doc.base)(id)->Ok_0.id == id by {
        assert(row_sound(start, lengths, id));
        assert(start.at(id) == (doc.base)(id));
    }
}

/// A document's writes take the rows that it started from to those that it holds.
proof fn lemma_rows_written<E>(
    start: Doc<E>,
    doc: Doc<E>,
    lengths: Map<i64, u32>,
    after: Map<i64, u32>,
    output: OutputView,
)
    requires
        is_unedited(start),
        sound(start, lengths),
        follows(start, doc),
        sound(doc, after),
        output.piece_inserts == doc.piece_inserts(),
        output.piece_updates == doc.piece_updates(),
    ensures
        rows_written(doc_rows(start), output) == doc_rows(doc),
{
    lemma_follows_settled(start, doc, lengths, after);
    lemma_net_changes(doc);
    assert(doc.base == start.row) by {
        reveal(follows);
    }
    let rows = doc_rows(start);
    let inserts = output.piece_inserts;
    let updates = output.piece_updates;
    let fresh = doc.new_ids;
    assert forall|i: int| 0 <= i < inserts.len() implies (#[trigger] inserts[i]).new_id == fresh[i]
        && inserted_row(inserts[i]) == doc.at(fresh[i])->Ok_0 && fresh.contains(fresh[i]) by {
        assert(fresh.contains(fresh[i]));
        assert(doc.at(fresh[i]) is Ok);
        assert(row_sound(doc, after, fresh[i]));
    }
    assert forall|i: int, j: int| 0 <= i < j < inserts.len() implies (#[trigger] inserts[i]).new_id != (
    #[trigger] inserts[j]).new_id by {
        assert(fresh[i] == start.next_piece_id + i && fresh[j] == start.next_piece_id + j);
    }
    lemma_with_inserts(rows, inserts);
    let added = with_inserts(rows, inserts);
    assert forall|i: int| 0 <= i < updates.len() implies added.contains_key((#[trigger] updates[i]).id) by {
        let u = updates[i];
        assert(was_there(doc, u.id));
        assert(start.at(u.id) == (doc.base)(u.id));
        assert(rows.contains_key(u.id));
    }
    lemma_with_updates(added, updates);
    let all = rows_written(rows, output);
    let end = doc_rows(doc);
    assert forall|id: i64| #[trigger] all.contains_key(id) <==> end.contains_key(id) by {
        assert(all.contains_key(id) <==> added.contains_key(id));
        if doc.new_ids.contains(id) {
            let i = choose|i: int| 0 <= i < fresh.len() && fresh[i] == id;
            assert(inserts[i].new_id == id);
        }
        assert(start.at(id) is Ok <==> rows.contains_key(id));
        assert(doc.at(id) is Ok <==> end.contains_key(id));
    }
    assert forall|id: i64| #[trigger] all.contains_key(id) implies all[id] == end[id] by {
        assert(end.contains_key(id));
        assert(doc.at(id) is Ok);
        assert(row_sound(doc, after, id));
        assert(row_sound(start, lengths, id));
        assert(start.at(id) == (doc.base)(id));
        if doc.new_ids.contains(id) {
            let i = choose|i: int| 0 <= i < fresh.len() && fresh[i] == id;
            assert(inserts[i].new_id == id);
            assert(added[inserts[i].new_id] == inserted_row(inserts[i]));
            assert forall|k: int| 0 <= k < updates.len() implies (#[trigger] updates[k]).id != id by {
                assert(was_there(doc, updates[k].id));
            }
            assert(all[id] == added[id]);
        } else {
            assert forall|i: int| 0 <= i < inserts.len() implies (#[trigger] inserts[i]).new_id != id by {
                assert(fresh.contains(fresh[i]));
            }
            assert(added[id] == rows[id]);
            assert(was_there(doc, id));
            if net_change(doc, id) is Some {
                let u = net_change(doc, id)->Some_0;
                assert(updates.contains(u));
                let k = choose|k: int| 0 <= k < updates.len() && updates[k] == u;
                assert(all[updates[k].id] == updated_row(added[updates[k].id], updates[k]));
            } else {
                assert forall|k: int| 0 <= k < updates.len() implies (#[trigger] updates[k]).id != id by {
                    assert(net_change(doc, updates[k].id) == Some(updates[k]));
                }
                assert(all[id] == added[id]);
            }
        }
    }
    assert(all =~= end);
}

// ---------- valid snapshots are sound ----------

proof fn lemma_row_valid(list_number: i64, next_id: i64, rows: Seq<PieceRow>, id: i64)
    requires
        rows_fault(list_number, next_id, rows) is None,
        rows_by_id(rows).contains_key(id),
    ensures
        ({
            let row = rows_by_id(rows)[id];
            row.id == id && 0 < id < next_id && row.list_number == list_number && row.coord.len_bytes > 0
        }),
    decreases rows.len(),
{
    if id != rows.last().id {
        lemma_row_valid(list_number, next_id, rows.drop_last(), id);
    }
}

pub proof fn lemma_valid_rows_differ(list_number: i64, next_id: i64, rows: Seq<PieceRow>)
    requires
        rows_fault(list_number, next_id, rows) is None,
    ensures
        ids_differ(rows),
    decreases rows.len(),
{
    if rows.len() > 0 {
        let rest = rows.drop_last();
        lemma_valid_rows_differ(list_number, next_id, rest);
        lemma_rows_by_id(rest);
        assert forall|i: int, j: int| 0 <= i < j < rows.len() implies (#[trigger] rows[i]).id != (
        #[trigger] rows[j]).id by {
            assert(rest[i] == rows[i]);
            if j < rest.len() {
                assert(rest[j] == rows[j]);
            } else {
                assert(rows_by_id(rest).contains_key(rest[i].id));
            }
        }
    }
}

/// Rows are found by their ids.
pub proof fn lemma_rows_by_id(rows: Seq<PieceRow>)
    requires
        ids_differ(rows),
    ensures
        forall|i: int|
            0 <= i < rows.len() ==> rows_by_id(rows).contains_key((#[trigger] rows[i]).id)
                && rows_by_id(rows)[rows[i].id] == rows[i],
        forall|id: i64| #[trigger]
            rows_by_id(rows).contains_key(id) ==> exists|i: int|
                0 <= i < rows.len() && (#[trigger] rows[i]).id == id,
    decreases rows.len(),
{
    if rows.len() > 0 {
        let rest = rows.drop_last();
        let last = rows.len() - 1;
        assert forall|i: int, j: int| 0 <= i < j < rest.len() implies (#[trigger] rest[i]).id != (
        #[trigger] rest[j]).id by {
            assert(rows[i].id != rows[j].id);
        }
        lemma_rows_by_id(rest);
        assert forall|i: int| 0 <= i < rows.len() implies rows_by_id(rows).contains_key(
            (#[trigger] rows[i]).id,
        ) && rows_by_id(rows)[rows[i].id] == rows[i] by {
            if i < last {
                assert(rest[i] == rows[i]);
                assert(rows[i].id != rows[last].id);
            }
        }
        assert forall|id: i64| #[trigger] rows_by_id(rows).contains_key(id) implies exists|i: int|
            0 <= i < rows.len() && (#[trigger] rows[i]).id == id by {
            if id == rows.last().id {
                assert(rows[last].id == id);
            } else {
                assert(rows_by_id(rest).contains_key(id));
                let i = choose|i: int| 0 <= i < rest.len() && (#[trigger] rest[i]).id == id;
                assert(rows[i].id == id);
            }
        }
    }
}

/// The document of a snapshot without fault is sound.
pub proof fn lemma_snapshot_sound(pieces: PieceSnapshot, buffers: BufferSnapshot)
    requires
        snapshot_fault(pieces, buffers) is None,
    ensures
        sound(snapshot_doc(pieces), lengths_by_id(buffers.buffers@)),
        is_unedited(snapshot_doc(pieces)),
        doc_rows(snapshot_doc(pieces)) == rows_by_id(pieces.pieces@),
{
    let rows = rows_by_id(pieces.pieces@);
    let lengths = lengths_by_id(buffers.buffers@);
    let doc = snapshot_doc(pieces);
    let wanted = |id: i64| rows.contains_key(id);
    let ids = ids_where(wanted);
    let links = |id: i64| links_fault(rows, pieces.head_id, pieces.tail_id, rows[id]);
    let ranges = |id: i64| range_fault(lengths, rows[id]);
    assert(first_fault(ids, links) is None);
    assert(first_fault(ids, ranges) is None);
    lemma_no_fault(ids, links);
    lemma_no_fault(ids, ranges);
    lemma_ids_below(wanted, i64::MAX + 1);
    assert forall|id: i64| #[trigger] row_sound(doc, lengths, id) by {
        if doc.at(id) is Ok {
            lemma_row_valid(pieces.list_number, pieces.pre_piece_next_id, pieces.pieces@, id);
            assert(wanted(id));
            assert(ids.contains(id));
            let k = choose|k: int| 0 <= k < ids.len() && ids[k] == id;
            assert(links(ids[k]) is None);
            assert(ranges(ids[k]) is None);
        }
    }
    assert(ends_sound(doc));
    assert(doc_rows(doc) =~= rows);
}

// ---------- sound documents make valid snapshots ----------

proof fn lemma_all_sound(ids: Seq<i64>, fault: spec_fn(i64) -> Option<PlannerError>)
    requires
        forall|i: int| 0 <= i < ids.len() ==> fault(#[trigger] ids[i]) is None,
    ensures
        first_fault(ids, fault) is None,
    decreases ids.len(),
{
    if ids.len() > 0 {
        let rest = ids.drop_last();
        assert forall|i: int| 0 <= i < rest.len() implies fault(#[trigger] rest[i]) is None by {
            assert(rest[i] == ids[i]);
        }
        lemma_all_sound(rest, fault);
        assert(ids.last() == ids[ids.len() - 1]);
    }
}

proof fn lemma_rows_valid(list_number: i64, next_id: i64, rows: Seq<PieceRow>)
    requires
        ids_differ(rows),
        forall|i: int|
            0 <= i < rows.len() ==> 0 < (#[trigger] rows[i]).id < next_id && rows[i].list_number
                == list_number && rows[i].coord.len_bytes > 0,
    ensures
        rows_fault(list_number, next_id, rows) is None,
    decreases rows.len(),
{
    if rows.len() > 0 {
        let rest = rows.drop_last();
        let last = rows.len() - 1;
        assert(rows.last() == rows[last]);
        assert forall|i: int| 0 <= i < rest.len() implies 0 < (#[trigger] rest[i]).id < next_id
            && rest[i].list_number == list_number && rest[i].coord.len_bytes > 0 by {
            assert(rest[i] == rows[i]);
        }
        assert forall|i: int, j: int| 0 <= i < j < rest.len() implies (#[trigger] rest[i]).id != (
        #[trigger] rest[j]).id by {
            assert(rows[i].id != rows[j].id);
        }
        lemma_rows_valid(list_number, next_id, rest);
        lemma_rows_by_id(rest);
        if rows_by_id(rest).contains_key(rows[last].id) {
            let i = choose|i: int| 0 <= i < rest.len() && (#[trigger] rest[i]).id == rows[last].id;
            assert(rows[i].id != rows[last].id);
        }
    }
}

proof fn lemma_lengths_keys(buffers: Seq<BufferMeta>, id: i64)
    requires
        lengths_by_id(buffers).contains_key(id),
    ensures
        exists|i: int| 0 <= i < buffers.len() && (#[trigger] buffers[i]).id == id,
    decreases buffers.len(),
{
    let last = buffers.len() - 1;
    assert(buffers.last() == buffers[last]);
    if id != buffers.last().id {
        let rest = buffers.drop_last();
        lemma_lengths_keys(rest, id);
        let i = choose|i: int| 0 <= i < rest.len() && (#[trigger] rest[i]).id == id;
        assert(buffers[i].id == id);
    }
}

proof fn lemma_buffers_valid(next_id: i64, buffers: Seq<BufferMeta>)
    requires
        forall|i: int, j: int|
            0 <= i < j < buffers.len() ==> (#[trigger] buffers[i]).id != (#[trigger] buffers[j]).id,
        forall|i: int|
            0 <= i < buffers.len() ==> 0 < (#[trigger] buffers[i]).id < next_id && 0
                < buffers[i].len_bytes <= MAX_BUFFER_LEN_BYTES,
    ensures
        buffers_fault(next_id, buffers) is None,
    decreases buffers.len(),
{
    if buffers.len() > 0 {
        let rest = buffers.drop_last();
        let last = buffers.len() - 1;
        assert(buffers.last() == buffers[last]);
        assert forall|i: int| 0 <= i < rest.len() implies 0 < (#[trigger] rest[i]).id < next_id && 0
            < rest[i].len_bytes <= MAX_BUFFER_LEN_BYTES by {
            assert(rest[i] == buffers[i]);
        }
        assert forall|i: int, j: int| 0 <= i < j < rest.len() implies (#[trigger] rest[i]).id != (
        #[trigger] rest[j]).id by {
            assert(buffers[i].id != buffers[j].id);
        }
        lemma_buffers_valid(next_id, rest);
        if lengths_by_id(rest).contains_key(buffers[last].id) {
            lemma_lengths_keys(rest, buffers[last].id);
            let i = choose|i: int| 0 <= i < rest.len() && (#[trigger] rest[i]).id == buffers[last].id;
            assert(buffers[i].id != buffers[last].id);
        }
    }
}

proof fn lemma_sound_snapshot<E>(doc: Doc<E>, pieces: PieceSnapshot, buffers: BufferSnapshot)
    requires
        sound(doc, lengths_by_id(buffers.buffers@)),
        doc.list_number > 0,
        pieces.list_number == doc.list_number,
        pieces.head_id == doc.head_id(),
        pieces.tail_id == doc.tail_id(),
        pieces.pre_piece_next_id == doc.next_piece_id,
        ids_differ(pieces.pieces@),
        rows_by_id(pieces.pieces@) == doc_rows(doc),
        buffers.pre_buffers_next_id > 0,
        buffers_fault(buffers.pre_buffers_next_id, buffers.buffers@) is None,
    ensures
        snapshot_fault(pieces, buffers) is None,
{
    let rows = rows_by_id(pieces.pieces@);
    let lengths = lengths_by_id(buffers.buffers@);
    let all = pieces.pieces@;
    lemma_rows_by_id(all);
    assert forall|i: int| 0 <= i < all.len() implies 0 < (#[trigger] all[i]).id < pieces.pre_piece_next_id
        && all[i].list_number == pieces.list_number && all[i].coord.len_bytes > 0 by {
        let id = all[i].id;
        assert(rows.contains_key(id));
        assert(doc.at(id) is Ok);
        assert(row_sound(doc, lengths, id));
    }
    lemma_rows_valid(pieces.list_number, pieces.pre_piece_next_id, all);
    let wanted = |id: i64| rows.contains_key(id);
    let ids = ids_where(wanted);
    lemma_ids_below(wanted, i64::MAX + 1);
    let links = |id: i64| links_fault(rows, pieces.head_id, pieces.tail_id, rows[id]);
    let ranges = |id: i64| range_fault(lengths, rows[id]);
    assert forall|i: int| 0 <= i < ids.len() implies links(#[trigger] ids[i]) is None && ranges(
        ids[i],
    ) is None by {
        let id = ids[i];
        assert(wanted(id));
        assert(row_sound(doc, lengths, id));
        assert(rows.contains_key(rows[id].prev_id) <==> doc.at(rows[id].prev_id) is Ok);
        assert(rows.contains_key(rows[id].next_id) <==> doc.at(rows[id].next_id) is Ok);
    }
    lemma_all_sound(ids, links);
    lemma_all_sound(ids, ranges);
    assert(rows.contains_key(pieces.head_id) <==> doc.at(doc.head_id()) is Ok);
    assert(rows.contains_key(pieces.tail_id) <==> doc.at(doc.tail_id()) is Ok);
}

// ---------- plans ----------

/// Lengths of buffers, with those of new ones.
pub open spec fn with_lengths(lengths: Map<i64, u32>, buffers: Seq<BufferInsertView>) -> Map<i64, u32>
    decreases buffers.len(),
{
    if buffers.len() == 0 {
        lengths
    } else {
        with_lengths(lengths, buffers.drop_last()).insert(
            buffers.last().new_id,
            buffers.last().len_bytes,
        )
    }
}

/// What holds of a plan in the making, and of the state that it started from.
pub open spec fn plan_kept(start: PlanState, state: PlanState) -> bool {
    let lengths = with_lengths(state.known, state.buffers);
    &&& sound(state.doc, lengths)
    &&& follows(start.doc, state.doc)
    &&& stays_apart(start.doc, state.doc)
    &&& state.known == start.known
    &&& start.next_buffer_id > 0
    &&& state.next_buffer_id == start.next_buffer_id + state.buffers.len()
    &&& forall|i: int|
        0 <= i < state.buffers.len() ==> (#[trigger] state.buffers[i]).new_id == start.next_buffer_id + i
            && 0 < state.buffers[i].len_bytes <= MAX_BUFFER_LEN_BYTES
    &&& forall|id: i64| #[trigger] lengths.contains_key(id) ==> id < state.next_buffer_id
}

proof fn lemma_step_kept(start: PlanState, state: PlanState, index: int, op: PieceTextEditItemManifest)
    requires
        plan_kept(start, state),
        state.step(index, op).1 is Ok,
    ensures
        plan_kept(start, state.step(index, op).0),
{
    reveal(PlanState::step);
    let lengths = with_lengths(state.known, state.buffers);
    let after = state.step(index, op).0;
    lemma_sound_ids(state.doc, lengths);
    match op {
        PieceTextEditItemManifest::Insert { at, inserted } => {
            let coord = whole_buffer(state.next_buffer_id, inserted.len_bytes);
            lemma_more_buffers(state.doc, lengths, state.next_buffer_id, inserted.len_bytes);
            assert forall|id: i64| (#[trigger] state.doc.at(id)) is Ok implies state.doc.at(
                id,
            )->Ok_0.coord.buffer_id != state.next_buffer_id by {
                assert(row_sound(state.doc, lengths, id));
            }
            assert(is_unused(state.doc, coord.buffer_id));
            let more = lengths.insert(state.next_buffer_id, inserted.len_bytes);
            assert(after.buffers.drop_last() =~= state.buffers);
            assert(with_lengths(after.known, after.buffers) == more);
            lemma_insert_sound(state.doc, more, at, coord);
            lemma_insert_follows(state.doc, at, coord);
        },
        PieceTextEditItemManifest::Delete { start: from, end: to } => {
            lemma_delete_sound(state.doc, lengths, from, to);
            lemma_delete_follows(state.doc, from, to);
        },
    }
    lemma_follows_then(start.doc, state.doc, after.doc);
}

/// Of the state that a plan starts from.
pub proof fn lemma_start_kept(input: PlannerInput)
    requires
        snapshot_fault(input.pieces, input.buffers) is None,
    ensures
        plan_kept(plan_start(input), plan_start(input)),
{
    let start = plan_start(input);
    let lengths = lengths_by_id(input.buffers.buffers@);
    lemma_snapshot_sound(input.pieces, input.buffers);
    lemma_sound_ids(start.doc, lengths);
    lemma_follows_self(start.doc);
    assert forall|id: i64| #[trigger] lengths.contains_key(id) implies id < start.next_buffer_id by {
        lemma_buffer_ids(input.buffers.pre_buffers_next_id, input.buffers.buffers@, id);
    }
}

pub proof fn lemma_steps_kept(start: PlanState, ops: Seq<PieceTextEditItemManifest>)
    requires
        plan_kept(start, start),
        start.steps(ops).1 is Ok,
    ensures
        plan_kept(start, start.steps(ops).0),
    decreases ops.len(),
{
    if ops.len() > 0 {
        lemma_steps_kept(start, ops.drop_last());
        lemma_step_kept(start, start.steps(ops.drop_last()).0, ops.len() - 1, ops.last());
    }
}

/// The state that a plan ends with.
pub open spec fn plan_end(input: PlannerInput) -> PlanState {
    plan_start(input).steps(input.envelope.edit.ops@).0
}

/// Of a plan that is made: its document is sound, and its writes take the
/// snapshot's rows to those of its document.
pub proof fn lemma_plan_kept(input: PlannerInput)
    requires
        plan(input) is Ok,
    ensures
        plan_kept(plan_start(input), plan_end(input)),
        rows_written(rows_by_id(input.pieces.pieces@), plan(input)->Ok_0) == doc_rows(plan_end(input).doc),
        plan_end(input).doc.list_number == input.pieces.list_number,
        plan_end(input).doc.new_ids.len() == plan_end(input).doc.next_piece_id
            - input.pieces.pre_piece_next_id,
{
    let start = plan_start(input);
    let end = plan_end(input);
    let lengths = lengths_by_id(input.buffers.buffers@);
    lemma_snapshot_sound(input.pieces, input.buffers);
    lemma_start_kept(input);
    lemma_steps_kept(start, input.envelope.edit.ops@);
    let after = with_lengths(end.known, end.buffers);
    lemma_rows_written(start.doc, end.doc, lengths, after, plan(input)->Ok_0);
    lemma_follows_settled(start.doc, end.doc, lengths, after);
}

proof fn lemma_lengths_written(
    lengths: Map<i64, u32>,
    before: Seq<BufferMeta>,
    inserts: Seq<BufferInsertView>,
    after: Seq<BufferMeta>,
)
    requires
        after.len() == before.len() + inserts.len(),
        lengths == lengths_by_id(before),
        forall|i: int|
            0 <= i < before.len() ==> (#[trigger] after[i]).id == before[i].id && after[i].len_bytes
                == before[i].len_bytes,
        forall|i: int|
            before.len() <= i < after.len() ==> is_added_buffer(
                #[trigger] after[i],
                inserts[i - before.len()],
            ),
    ensures
        lengths_by_id(after) == with_lengths(lengths, inserts),
    decreases after.len(),
{
    if after.len() > 0 {
        let rest = after.drop_last();
        let last = after.len() - 1;
        assert(after.last() == after[last]);
        if inserts.len() > 0 {
            assert forall|i: int| before.len() <= i < rest.len() implies is_added_buffer(
                #[trigger] rest[i],
                inserts.drop_last()[i - before.len()],
            ) by {
                assert(rest[i] == after[i]);
            }
            lemma_lengths_written(lengths, before, inserts.drop_last(), rest);
            assert(is_added_buffer(after[last], inserts[last - before.len()]));
        } else {
            assert forall|i: int| 0 <= i < before.drop_last().len() implies (#[trigger] rest[i]).id
                == before.drop_last()[i].id && rest[i].len_bytes == before.drop_last()[i].len_bytes by {
                assert(rest[i] == after[i]);
            }
            lemma_lengths_written(lengths_by_id(before.drop_last()), before.drop_last(), inserts, rest);
            assert(before.last() == before[last]);
        }
    }
}

proof fn lemma_buffer_valid(next_id: i64, buffers: Seq<BufferMeta>)
    requires
        buffers_fault(next_id, buffers) is None,
    ensures
        forall|i: int|
            0 <= i < buffers.len() ==> 0 < (#[trigger] buffers[i]).id < next_id && 0
                < buffers[i].len_bytes <= MAX_BUFFER_LEN_BYTES && lengths_by_id(buffers).contains_key(
                buffers[i].id,
            ),
        forall|i: int, j: int|
            0 <= i < j < buffers.len() ==> (#[trigger] buffers[i]).id != (#[trigger] buffers[j]).id,
    decreases buffers.len(),
{
    if buffers.len() > 0 {
        let rest = buffers.drop_last();
        let last = buffers.len() - 1;
        lemma_buffer_valid(next_id, rest);
        assert forall|i: int| 0 <= i < buffers.len() implies 0 < (#[trigger] buffers[i]).id < next_id && 0
            < buffers[i].len_bytes <= MAX_BUFFER_LEN_BYTES && lengths_by_id(buffers).contains_key(
            buffers[i].id,
        ) by {
            if i < last {
                assert(rest[i] == buffers[i]);
            }
        }
        assert forall|i: int, j: int| 0 <= i < j < buffers.len() implies (#[trigger] buffers[i]).id != (
        #[trigger] buffers[j]).id by {
            assert(rest[i] == buffers[i]);
            if j < last {
                assert(rest[j] == buffers[j]);
            }
        }
    }
}

/// A snapshot with a plan's output written is again one that a plan can be made
/// on.
pub proof fn law_plan_leaves_valid_snapshot(
    input: PlannerInput,
    pieces: PieceSnapshot,
    buffers: BufferSnapshot,
)
    requires
        plan(input) is Ok,
        pieces_written(input.pieces, plan(input)->Ok_0, pieces),
        buffers_written(input.buffers, plan(input)->Ok_0, buffers),
    ensures
        snapshot_fault(pieces, buffers) is None,
{
    let start = plan_start(input);
    let end = plan_end(input);
    let before = input.buffers.buffers@;
    let after = buffers.buffers@;
    let n = before.len() as int;
    lemma_plan_kept(input);
    lemma_lengths_written(lengths_by_id(before), before, end.buffers, after);
    lemma_buffer_valid(input.buffers.pre_buffers_next_id, before);
    assert forall|i: int| 0 <= i < after.len() implies 0 < (#[trigger] after[i]).id
        < buffers.pre_buffers_next_id && 0 < after[i].len_bytes <= MAX_BUFFER_LEN_BYTES by {
        if i < n {
            assert(0 < before[i].id < input.buffers.pre_buffers_next_id);
        } else {
            assert(is_added_buffer(after[i], end.buffers[i - n]));
        }
    }
    assert forall|i: int, j: int| 0 <= i < j < after.len() implies (#[trigger] after[i]).id != (
    #[trigger] after[j]).id by {
        if i < n {
            assert(0 < before[i].id < input.buffers.pre_buffers_next_id);
        } else {
            assert(is_added_buffer(after[i], end.buffers[i - n]));
        }
        if j < n {
            assert(before[i].id != before[j].id);
        } else {
            assert(is_added_buffer(after[j], end.buffers[j - n]));
        }
    }
    lemma_buffers_valid(buffers.pre_buffers_next_id, after);
    lemma_sound_snapshot(end.doc, pieces, buffers);
}

/// Rows of which no two have a byte in common.
pub open spec fn rows_apart(rows: Seq<PieceRow>) -> bool {
    forall|i: int, j: int|
        0 <= i < j < rows.len() ==> apart((#[trigger] rows[i]).coord, (#[trigger] rows[j]).coord)
}

/// If no two rows of a snapshot have a byte in common, the same holds with a
/// plan's output written.
pub proof fn law_plan_leaves_rows_apart(input: PlannerInput, after: PieceSnapshot)
    requires
        plan(input) is Ok,
        rows_apart(input.pieces.pieces@),
        pieces_written(input.pieces, plan(input)->Ok_0, after),
    ensures
        rows_apart(after.pieces@),
{
    let before = input.pieces.pieces@;
    let start = plan_start(input).doc;
    let end = plan_end(input).doc;
    lemma_plan_kept(input);
    lemma_snapshot_sound(input.pieces, input.buffers);
    lemma_valid_rows_differ(input.pieces.list_number, input.pieces.pre_piece_next_id, before);
    lemma_rows_by_id(before);
    lemma_rows_by_id(after.pieces@);
    assert forall|a: i64, b: i64| #[trigger] pair_apart(start, a, b) by {
        if a != b && start.at(a) is Ok && start.at(b) is Ok {
            assert(rows_by_id(before).contains_key(a) && rows_by_id(before).contains_key(b));
            let i = choose|i: int| 0 <= i < before.len() && (#[trigger] before[i]).id == a;
            let j = choose|j: int| 0 <= j < before.len() && (#[trigger] before[j]).id == b;
            if i < j {
                assert(apart(before[i].coord, before[j].coord));
            } else {
                assert(apart(before[j].coord, before[i].coord));
            }
        }
    }
    assert(all_apart(end));
    let rows = after.pieces@;
    assert forall|i: int, j: int| 0 <= i < j < rows.len() implies apart(
        (#[trigger] rows[i]).coord,
        (#[trigger] rows[j]).coord,
    ) by {
        assert(rows[i].id != rows[j].id);
        assert(doc_rows(end).contains_key(rows[i].id) && doc_rows(end).contains_key(rows[j].id));
        assert(pair_apart(end, rows[i].id, rows[j].id));
    }
}

} // verus!
