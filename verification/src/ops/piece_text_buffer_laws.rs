//! What an edit leaves in the tree beside the chain of its document: the buffers
//! that it adds, the entries of indexes, and the counters.

use vstd::prelude::*;

use crate::changelog::ChangelogEntry;
use crate::ops::piece_text_edit_op::{
    buffer_writes, buffers_writes, checked_writes, coord_writes, coords_by_id, edit_operation, edit_target,
    edited, endpoint_writes, next_id_writes, piece_writes, pieces_writes, update_writes, updates_writes,
    EditChecks, EditTarget,
};
use crate::ops::piece_text_edit_op_laws::{
    chain_of, lemma_edited, lemma_row_with_id, lemma_row_writes, row_writes, well_formed,
};
use crate::ops::piece_text_index_laws::{
    is_indexed, not_indexed, piece_cell_key, piece_entry_key, well_indexed,
};
use crate::ops::piece_text_tree::{
    holds, lemma_put_value, lemma_unwritten, same_at, written, writes_to, Tree,
};
use crate::ops::{lemma_first_repeated, repeats_key};
use crate::piece_text::{
    decode_message, AddressView, InsertedBufferManifest, PieceCoord, PieceTextEditItemManifest,
};
use crate::piece_text_chain::Piece;
use crate::piece_text_edit_writes::{fresh_ids, has_id, row_with};
use crate::piece_text_inserts::{
    inserts_before, lemma_insert_total, lemma_inserts_ascend, lemma_inserts_before, lemma_inserts_next,
};
use crate::piece_text_overlay::{start_state, EditState};
use crate::piece_text_planner::{BufferInsertView, OutputView, PieceRowInsert, PieceRowUpdate};
use crate::piece_text_resolver::{piece_key, PieceColumn};
use crate::piece_text_staging::row_insert;
use crate::storage::{
    buffer_table, i64_be, piece_table, Answers, BatchOpView, IndexValueView, KeyView, ValueView,
};

verus! {

// ---------- inserts ----------

/// The buffers that operations have added: one for each insert, in order, with the
/// next ids.
pub open spec fn has_added(start: EditState, ops: Seq<PieceTextEditItemManifest>, state: EditState) -> bool {
    let n = ops.len() as int;
    &&& state.rest.owner == start.rest.owner
    &&& state.rest.author_id == start.rest.author_id
    &&& state.rest.next_buffer_id == start.rest.next_buffer_id + inserts_before(ops, n)
    &&& state.rest.buffers.len() == inserts_before(ops, n)
    &&& forall|i: int|
        0 <= i < n ==> ((#[trigger] ops[i]) matches PieceTextEditItemManifest::Insert { inserted, .. }
            ==> state.rest.buffers[inserts_before(ops, i)] == (BufferInsertView {
            new_id: (start.rest.next_buffer_id + inserts_before(ops, i)) as i64,
            owner: start.rest.owner,
            author_id: start.rest.author_id,
            len_bytes: inserted.len_bytes,
            ciphertext_value_hash: inserted.ciphertext_value_hash,
        }))
    &&& forall|k: int|
        0 <= k < state.rest.buffers.len() ==> (#[trigger] state.rest.buffers[k]).new_id
            == start.rest.next_buffer_id + k
}

proof fn lemma_step_adds(before: EditState, index: int, op: PieceTextEditItemManifest)
    requires
        before.step(index, op).1 is Ok,
    ensures
        match op {
            PieceTextEditItemManifest::Insert { inserted, .. } => before.rest.next_buffer_id < i64::MAX
                && before.step(index, op).0.rest == before.with_buffer(inserted).rest,
            PieceTextEditItemManifest::Delete { .. } => before.step(index, op).0.rest == before.rest,
        },
{
    reveal(EditState::step);
}

pub proof fn lemma_has_added(start: EditState, ops: Seq<PieceTextEditItemManifest>)
    requires
        start.rest.buffers.len() == 0,
        start.steps(ops).1 is Ok,
    ensures
        has_added(start, ops, start.steps(ops).0),
    decreases ops.len(),
{
    if ops.len() == 0 {
        reveal(inserts_before);
    } else {
        let rest = ops.drop_last();
        let last = ops.len() - 1;
        lemma_has_added(start, rest);
        lemma_inserts_next(ops, last);
        lemma_inserts_before(rest, ops, last);
        let before = start.steps(rest).0;
        lemma_step_adds(before, last, ops.last());
        let state = start.steps(ops).0;
        assert(ops[last] == ops.last());
        assert forall|i: int| 0 <= i < ops.len() implies ((#[trigger] ops[i]) matches PieceTextEditItemManifest::Insert {
            inserted,
            ..
        } ==> state.rest.buffers[inserts_before(ops, i)] == (BufferInsertView {
            new_id: (start.rest.next_buffer_id + inserts_before(ops, i)) as i64,
            owner: start.rest.owner,
            author_id: start.rest.author_id,
            len_bytes: inserted.len_bytes,
            ciphertext_value_hash: inserted.ciphertext_value_hash,
        })) by {
            if i < last {
                assert(rest[i] == ops[i]);
                lemma_inserts_before(rest, ops, i);
                if ops[i] is Insert {
                    lemma_inserts_next(ops, i);
                    lemma_inserts_ascend(rest, i + 1, last);
                    lemma_inserts_before(rest, ops, i + 1);
                }
            }
        }
        assert forall|k: int| 0 <= k < state.rest.buffers.len() implies (#[trigger] state.rest.buffers[k]).new_id
            == start.rest.next_buffer_id + k by {
            if k < before.rest.buffers.len() {
                assert(state.rest.buffers[k] == before.rest.buffers[k]);
            }
        }
    }
}

// ---------- the writes of an edit ----------

spec fn all_in(some: Seq<BatchOpView>, all: Seq<BatchOpView>) -> bool {
    forall|op: BatchOpView| #[trigger] some.contains(op) ==> all.contains(op)
}

proof fn lemma_all_in(a: Seq<BatchOpView>, b: Seq<BatchOpView>)
    ensures
        all_in(a, a + b),
        all_in(b, a + b),
        forall|op: BatchOpView| #[trigger] (a + b).contains(op) ==> a.contains(op) || b.contains(op),
{
    let all = a + b;
    assert forall|op: BatchOpView| #[trigger] a.contains(op) implies all.contains(op) by {
        assert(all[a.index_of(op)] == op);
    }
    assert forall|op: BatchOpView| #[trigger] b.contains(op) implies all.contains(op) by {
        assert(all[a.len() + b.index_of(op)] == op);
    }
    assert forall|op: BatchOpView| #[trigger] all.contains(op) implies a.contains(op) || b.contains(op) by {
        let k = all.index_of(op);
        if k < a.len() {
            assert(a[k] == op);
        } else {
            assert(b[k - a.len()] == op);
        }
    }
}

proof fn lemma_buffers_in(inserts: Seq<BufferInsertView>, address: AddressView)
    requires
        buffers_writes(inserts, address) is Ok,
    ensures
        ({
            let all = buffers_writes(inserts, address)->Ok_0;
            &&& forall|k: int|
                0 <= k < inserts.len() ==> buffer_writes(#[trigger] inserts[k], address) is Ok && all_in(
                    buffer_writes(inserts[k], address)->Ok_0,
                    all,
                )
            &&& forall|op: BatchOpView| #[trigger]
                all.contains(op) ==> exists|k: int|
                    0 <= k < inserts.len() && buffer_writes(#[trigger] inserts[k], address)->Ok_0.contains(op)
        }),
    decreases inserts.len(),
{
    if inserts.len() > 0 {
        let rest = inserts.drop_last();
        let last = inserts.last();
        lemma_buffers_in(rest, address);
        let a = buffers_writes(rest, address)->Ok_0;
        let b = buffer_writes(last, address)->Ok_0;
        let all = buffers_writes(inserts, address)->Ok_0;
        lemma_all_in(a, b);
        assert(all == a + b);
        assert(inserts[inserts.len() - 1] == last);
        assert forall|k: int| 0 <= k < inserts.len() implies buffer_writes(#[trigger] inserts[k], address) is Ok
            && all_in(buffer_writes(inserts[k], address)->Ok_0, all) by {
            if k < rest.len() {
                assert(rest[k] == inserts[k]);
            }
        }
        assert forall|op: BatchOpView| #[trigger] all.contains(op) implies exists|k: int|
            0 <= k < inserts.len() && buffer_writes(#[trigger] inserts[k], address)->Ok_0.contains(op) by {
            if a.contains(op) {
                let k = choose|k: int|
                    0 <= k < rest.len() && buffer_writes(#[trigger] rest[k], address)->Ok_0.contains(op);
                assert(inserts[k] == rest[k]);
            }
        }
    }
}

proof fn lemma_pieces_in(rows: Seq<PieceRowInsert>)
    requires
        pieces_writes(rows) is Ok,
    ensures
        ({
            let all = pieces_writes(rows)->Ok_0;
            &&& forall|k: int|
                0 <= k < rows.len() ==> piece_writes(#[trigger] rows[k]) is Ok && all_in(
                    piece_writes(rows[k])->Ok_0,
                    all,
                )
            &&& forall|op: BatchOpView| #[trigger]
                all.contains(op) ==> exists|k: int|
                    0 <= k < rows.len() && piece_writes(#[trigger] rows[k])->Ok_0.contains(op)
        }),
    decreases rows.len(),
{
    if rows.len() > 0 {
        let rest = rows.drop_last();
        let last = rows.last();
        lemma_pieces_in(rest);
        let a = pieces_writes(rest)->Ok_0;
        let b = piece_writes(last)->Ok_0;
        let all = pieces_writes(rows)->Ok_0;
        lemma_all_in(a, b);
        assert(all == a + b);
        assert(rows[rows.len() - 1] == last);
        assert forall|k: int| 0 <= k < rows.len() implies piece_writes(#[trigger] rows[k]) is Ok && all_in(
            piece_writes(rows[k])->Ok_0,
            all,
        ) by {
            if k < rest.len() {
                assert(rest[k] == rows[k]);
            }
        }
        assert forall|op: BatchOpView| #[trigger] all.contains(op) implies exists|k: int|
            0 <= k < rows.len() && piece_writes(#[trigger] rows[k])->Ok_0.contains(op) by {
            if a.contains(op) {
                let k = choose|k: int|
                    0 <= k < rest.len() && piece_writes(#[trigger] rest[k])->Ok_0.contains(op);
                assert(rows[k] == rest[k]);
            }
        }
    }
}

/// The key is that of a cell that a change of the row may write.
spec fn is_update_of(updates: Seq<PieceRowUpdate>, key: KeyView) -> bool {
    exists|k: int|
        0 <= k < updates.len() && {
            let id = (#[trigger] updates[k]).id;
            ||| key == piece_key(id, PieceColumn::PrevId)
            ||| key == piece_key(id, PieceColumn::NextId)
            ||| key == piece_key(id, PieceColumn::LenBytes)
            ||| key == piece_key(id, PieceColumn::Tombstone)
        }
}

proof fn lemma_updates_in(updates: Seq<PieceRowUpdate>, originals: Map<i64, PieceCoord>)
    requires
        updates_writes(updates, originals) is Ok,
    ensures
        forall|op: BatchOpView| #[trigger]
            updates_writes(updates, originals)->Ok_0.contains(op) ==> is_update_of(updates, op.key()),
    decreases updates.len(),
{
    if updates.len() > 0 {
        let rest = updates.drop_last();
        let last = updates.last();
        lemma_updates_in(rest, originals);
        let a = updates_writes(rest, originals)->Ok_0;
        let b = update_writes(last, originals)->Ok_0;
        let all = updates_writes(updates, originals)->Ok_0;
        lemma_all_in(a, b);
        assert(all == a + b);
        assert(updates[updates.len() - 1] == last);
        assert forall|op: BatchOpView| #[trigger] all.contains(op) implies is_update_of(updates, op.key()) by {
            if a.contains(op) {
                let k = choose|k: int|
                    0 <= k < rest.len() && {
                        let id = (#[trigger] rest[k]).id;
                        ||| op.key() == piece_key(id, PieceColumn::PrevId)
                        ||| op.key() == piece_key(id, PieceColumn::NextId)
                        ||| op.key() == piece_key(id, PieceColumn::LenBytes)
                        ||| op.key() == piece_key(id, PieceColumn::Tombstone)
                    };
                assert(updates[k] == rest[k]);
            } else {
                let m = b.index_of(op);
                assert(b[m] == op);
                if last.coord is Some {
                    assert(coord_writes(last.id, last.coord->Some_0, originals) is Ok);
                }
            }
        }
    }
}

/// All writes of a planned edit, part by part.
spec fn is_edit_write(
    address: AddressView,
    list_number: i64,
    output: OutputView,
    op: BatchOpView,
) -> bool {
    ||| exists|k: int|
        0 <= k < output.buffer_inserts.len() && buffer_writes(
            #[trigger] output.buffer_inserts[k],
            address,
        )->Ok_0.contains(op)
    ||| exists|k: int|
        0 <= k < output.piece_inserts.len() && piece_writes(#[trigger] output.piece_inserts[k])->Ok_0.contains(op)
    ||| is_update_of(output.piece_updates, op.key())
    ||| next_id_writes(buffer_table(), output.buffers_next_id_post).contains(op)
    ||| next_id_writes(piece_table(), output.piece_next_id_post).contains(op)
    ||| op.key() == (KeyView::PieceHead { list_number })
    ||| op.key() == (KeyView::PieceTail { list_number })
}

proof fn lemma_edit_writes_in(
    address: AddressView,
    list_number: i64,
    output: OutputView,
    originals: Map<i64, PieceCoord>,
)
    requires
        checked_writes(address, list_number, output, originals) is Ok,
    ensures
        ({
            let all = checked_writes(address, list_number, output, originals)->Ok_0;
            &&& !repeats_key(all)
            &&& forall|k: int|
                0 <= k < output.buffer_inserts.len() ==> buffer_writes(
                    #[trigger] output.buffer_inserts[k],
                    address,
                ) is Ok && all_in(buffer_writes(output.buffer_inserts[k], address)->Ok_0, all)
            &&& forall|k: int|
                0 <= k < output.piece_inserts.len() ==> piece_writes(#[trigger] output.piece_inserts[k]) is Ok
                    && all_in(piece_writes(output.piece_inserts[k])->Ok_0, all)
            &&& all_in(next_id_writes(buffer_table(), output.buffers_next_id_post), all)
            &&& all_in(next_id_writes(piece_table(), output.piece_next_id_post), all)
            &&& forall|op: BatchOpView| #[trigger]
                all.contains(op) ==> is_edit_write(address, list_number, output, op)
        }),
{
    let all = checked_writes(address, list_number, output, originals)->Ok_0;
    lemma_first_repeated(all);
    let a = buffers_writes(output.buffer_inserts, address)->Ok_0;
    let b = next_id_writes(buffer_table(), output.buffers_next_id_post);
    let c = pieces_writes(output.piece_inserts)->Ok_0;
    let d = updates_writes(output.piece_updates, originals)->Ok_0;
    let e = next_id_writes(piece_table(), output.piece_next_id_post);
    let f = endpoint_writes(KeyView::PieceHead { list_number }, output.head_update);
    let g = endpoint_writes(KeyView::PieceTail { list_number }, output.tail_update);
    assert(all == a + b + c + d + e + f + g);
    lemma_buffers_in(output.buffer_inserts, address);
    lemma_pieces_in(output.piece_inserts);
    lemma_updates_in(output.piece_updates, originals);
    lemma_all_in(a, b);
    lemma_all_in(a + b, c);
    lemma_all_in(a + b + c, d);
    lemma_all_in(a + b + c + d, e);
    lemma_all_in(a + b + c + d + e, f);
    lemma_all_in(a + b + c + d + e + f, g);
    assert forall|op: BatchOpView| #[trigger] all.contains(op) implies is_edit_write(
        address,
        list_number,
        output,
        op,
    ) by {
        assert(a.contains(op) || b.contains(op) || c.contains(op) || d.contains(op) || e.contains(op)
            || f.contains(op) || g.contains(op));
        if f.contains(op) {
            assert(f[f.index_of(op)].key() == (KeyView::PieceHead { list_number }));
        }
        if g.contains(op) {
            assert(g[g.index_of(op)].key() == (KeyView::PieceTail { list_number }));
        }
    }
    assert(all_in(a, all));
    assert(all_in(c, all));
    assert(all_in(b, all));
    assert(all_in(e, all));
}

/// One put of several writes to different keys decides what its key holds.
proof fn lemma_puts_alone(tree: Tree, writes: Seq<BatchOpView>, key: KeyView, value: ValueView)
    requires
        !repeats_key(writes),
        writes.contains(BatchOpView::Put { key, value }),
    ensures
        holds(written(tree, writes), key, value),
{
    let i = writes.index_of(BatchOpView::Put { key, value });
    assert(writes[i].key() == key);
    assert forall|k: int| 0 <= k < writes.len() && (#[trigger] writes[k]).key() == key implies writes[k]
        == (BatchOpView::Put { key, value }) by {
        if k < i {
            assert(writes[k].key() == writes[i].key());
        } else if i < k {
            assert(writes[i].key() == writes[k].key());
        }
    }
    lemma_put_value(tree, writes, key, value);
}

// ---------- buffers ----------

/// The key of a cell of the table of buffers.
pub open spec fn buffer_cell_key(row_id: i64, column: Seq<char>) -> KeyView {
    KeyView::Column { table: "_piecetext_buffers"@, row_id, column }
}

/// The key of an entry of an index of the table of buffers.
pub open spec fn buffer_entry_key(column: Seq<char>, value: IndexValueView, row_id: i64) -> KeyView {
    KeyView::Index { table: "_piecetext_buffers"@, column, value, row_id }
}

/// The tree holds a buffer of the document: who wrote it, how long it is, the hash
/// of what it holds, and the entries by which its owner finds it.
pub open spec fn holds_buffer(
    tree: Tree,
    id: i64,
    owner: AddressView,
    author_id: i64,
    inserted: InsertedBufferManifest,
) -> bool {
    &&& holds(tree, buffer_cell_key(id, "owner_table"@), ValueView::Text(owner.table))
    &&& holds(tree, buffer_cell_key(id, "owner_row_id"@), ValueView::Int(owner.row_id))
    &&& holds(tree, buffer_cell_key(id, "owner_column"@), ValueView::Text(owner.column))
    &&& holds(tree, buffer_cell_key(id, "author_id"@), ValueView::Int(author_id))
    &&& holds(tree, buffer_cell_key(id, "len_bytes"@), ValueView::Int(inserted.len_bytes as i64))
    &&& holds(tree, buffer_cell_key(id, "contents"@), ValueView::Raw(inserted.ciphertext_value_hash@))
    &&& holds(
        tree,
        buffer_entry_key("owner_table"@, IndexValueView::Text(owner.table), id),
        ValueView::RowId(id),
    )
    &&& holds(
        tree,
        buffer_entry_key("owner_row_id"@, IndexValueView::Int(owner.row_id), id),
        ValueView::RowId(id),
    )
    &&& holds(
        tree,
        buffer_entry_key("owner_column"@, IndexValueView::Text(owner.column), id),
        ValueView::RowId(id),
    )
}

proof fn lemma_buffer_held(
    tree: Tree,
    writes: Seq<BatchOpView>,
    insert: BufferInsertView,
    address: AddressView,
    inserted: InsertedBufferManifest,
)
    requires
        !repeats_key(writes),
        buffer_writes(insert, address) is Ok,
        all_in(buffer_writes(insert, address)->Ok_0, writes),
        insert.len_bytes == inserted.len_bytes,
        insert.ciphertext_value_hash == inserted.ciphertext_value_hash,
    ensures
        holds_buffer(written(tree, writes), insert.new_id, address, insert.author_id, inserted),
{
    let own = buffer_writes(insert, address)->Ok_0;
    assert(own.len() == 9);
    assert forall|k: int| 0 <= k < 9 implies writes.contains(#[trigger] own[k]) by {
        assert(own.contains(own[k]));
    }
    assert forall|key: KeyView, value: ValueView|
        #[trigger] writes.contains(BatchOpView::Put { key, value }) implies holds(
        written(tree, writes),
        key,
        value,
    ) by {
        lemma_puts_alone(tree, writes, key, value);
    }
    let id = insert.new_id;
    assert(own[0] == (BatchOpView::Put {
        key: buffer_cell_key(id, "owner_table"@),
        value: ValueView::Text(address.table),
    }));
    assert(own[1] == (BatchOpView::Put {
        key: buffer_cell_key(id, "owner_row_id"@),
        value: ValueView::Int(address.row_id),
    }));
    assert(own[2] == (BatchOpView::Put {
        key: buffer_cell_key(id, "owner_column"@),
        value: ValueView::Text(address.column),
    }));
    assert(own[3] == (BatchOpView::Put {
        key: buffer_cell_key(id, "author_id"@),
        value: ValueView::Int(insert.author_id),
    }));
    assert(own[4] == (BatchOpView::Put {
        key: buffer_cell_key(id, "len_bytes"@),
        value: ValueView::Int(inserted.len_bytes as i64),
    }));
    assert(own[5] == (BatchOpView::Put {
        key: buffer_cell_key(id, "contents"@),
        value: ValueView::Raw(inserted.ciphertext_value_hash@),
    }));
    assert(own[6] == (BatchOpView::Put {
        key: buffer_entry_key("owner_column"@, IndexValueView::Text(address.column), id),
        value: ValueView::RowId(id),
    }));
    assert(own[7] == (BatchOpView::Put {
        key: buffer_entry_key("owner_row_id"@, IndexValueView::Int(address.row_id), id),
        value: ValueView::RowId(id),
    }));
    assert(own[8] == (BatchOpView::Put {
        key: buffer_entry_key("owner_table"@, IndexValueView::Text(address.table), id),
        value: ValueView::RowId(id),
    }));
}

proof fn lemma_buffer_keys(insert: BufferInsertView, address: AddressView, op: BatchOpView)
    requires
        buffer_writes(insert, address) is Ok,
        buffer_writes(insert, address)->Ok_0.contains(op),
    ensures
        match op.key() {
            KeyView::Column { table, row_id, .. } => table == "_piecetext_buffers"@ && row_id == insert.new_id,
            KeyView::Index { table, row_id, .. } => table == "_piecetext_buffers"@ && row_id == insert.new_id,
            _ => false,
        },
{
    let own = buffer_writes(insert, address)->Ok_0;
    let k = own.index_of(op);
    assert(own.len() == 9);
    assert(own[k] == op);
}

/// The row of the table of buffers is one that the key is of.
pub open spec fn is_buffer_row_key(key: KeyView, id: i64) -> bool {
    match key {
        KeyView::Column { table, row_id, .. } => table == "_piecetext_buffers"@ && row_id == id,
        KeyView::Index { table, row_id, .. } => table == "_piecetext_buffers"@ && row_id == id,
        _ => false,
    }
}

proof fn lemma_table_names()
    ensures
        "_piecetext_pieces"@ != "_piecetext_buffers"@,
        piece_table() == "_piecetext_pieces"@,
        buffer_table() == "_piecetext_buffers"@,
{
    reveal_strlit("_piecetext_pieces");
    reveal_strlit("_piecetext_buffers");
    assert("_piecetext_pieces"@.len() != "_piecetext_buffers"@.len());
}

/// After an accepted edit is written, the tree holds for every insert of its
/// envelope a buffer of its own, under the next free id as the inserts come: with
/// that insert's hash and length, the author of the entry, and the document as the
/// owner. The counter of buffers is behind them all. No other row of the table of
/// buffers changes, and where nothing is inserted the counter stays.
pub proof fn law_edit_stores_buffers(answers: Answers, checks: EditChecks, entry: ChangelogEntry, tree: Tree)
    requires
        edit_operation(answers, checks, entry) is Ok,
    ensures
        ({
            let envelope = decode_message(entry.message@)->Ok_0;
            let ops = envelope.ops;
            let total = inserts_before(ops, ops.len() as int);
            let after = written(tree, edit_operation(answers, checks, entry)->Ok_0.0);
            let counter = KeyView::NextId { table: "_piecetext_buffers"@ };
            &&& total > 0 ==> checks.buffers_next_id is Ok
            &&& forall|i: int|
                0 <= i < ops.len() ==> ((#[trigger] ops[i]) matches PieceTextEditItemManifest::Insert {
                    inserted,
                    ..
                } ==> checks.buffers_next_id->Ok_0 + inserts_before(ops, i) < i64::MAX && holds_buffer(
                    after,
                    (checks.buffers_next_id->Ok_0 + inserts_before(ops, i)) as i64,
                    envelope.address,
                    entry.uid as i64,
                    inserted,
                ))
            &&& if total > 0 {
                holds(after, counter, ValueView::Raw(i64_be((checks.buffers_next_id->Ok_0 + total) as i64)))
            } else {
                same_at(tree, after, counter)
            }
            &&& forall|key: KeyView, id: i64|
                #![trigger is_buffer_row_key(key, id)]
                is_buffer_row_key(key, id) && (total == 0 || id < checks.buffers_next_id->Ok_0 || id
                    >= checks.buffers_next_id->Ok_0 + total) ==> same_at(tree, after, key)
        }),
{
    let envelope = decode_message(entry.message@)->Ok_0;
    let ops = envelope.ops;
    let n = ops.len() as int;
    let total = inserts_before(ops, n);
    let address = envelope.address;
    let target = edit_target(answers, checks, envelope)->Ok_0;
    let start = start_of(answers, target, address, entry.uid as i64);
    let state = edited(answers, target, envelope, entry.uid as i64)->Ok_0;
    let output = state.output();
    let originals = coords_by_id(output.trace.rows);
    let writes = edit_operation(answers, checks, entry)->Ok_0.0;
    let after = written(tree, writes);
    let counter = KeyView::NextId { table: "_piecetext_buffers"@ };
    lemma_has_added(start, ops);
    lemma_insert_total(ops);
    lemma_inserts_before(ops, ops, n);
    lemma_edit_writes_in(address, target.list_number, output, originals);
    lemma_table_names();
    assert forall|i: int| 0 <= i < ops.len() implies ((#[trigger] ops[i]) matches PieceTextEditItemManifest::Insert {
        inserted,
        ..
    } ==> checks.buffers_next_id->Ok_0 + inserts_before(ops, i) < i64::MAX && holds_buffer(
        after,
        (checks.buffers_next_id->Ok_0 + inserts_before(ops, i)) as i64,
        address,
        entry.uid as i64,
        inserted,
    )) by {
        if let PieceTextEditItemManifest::Insert { inserted, .. } = ops[i] {
            lemma_inserts_ascend(ops, i + 1, n);
            lemma_inserts_next(ops, i);
            let k = inserts_before(ops, i);
            lemma_inserts_before(ops, ops, i);
            let insert = output.buffer_inserts[k];
            lemma_buffer_held(tree, writes, insert, address, inserted);
        }
    }
    assert forall|op: BatchOpView| #[trigger] writes.contains(op) && op.key() == counter implies output.buffers_next_id_post is Some by {
        assert(is_edit_write(address, target.list_number, output, op));
        lemma_edit_keys(address, target.list_number, output, op);
    }
    if total > 0 {
        let put = BatchOpView::Put { key: counter, value: ValueView::Raw(i64_be(state.rest.next_buffer_id)) };
        let some = next_id_writes(buffer_table(), output.buffers_next_id_post);
        assert(some[0] == put);
        assert(some.contains(put));
        lemma_puts_alone(tree, writes, counter, ValueView::Raw(i64_be(state.rest.next_buffer_id)));
    } else {
        assert(!writes_to(writes, counter)) by {
            if writes_to(writes, counter) {
                let k = choose|k: int| 0 <= k < writes.len() && (#[trigger] writes[k]).key() == counter;
                assert(writes.contains(writes[k]));
            }
        }
        lemma_unwritten(tree, writes, counter);
    }
    assert forall|key: KeyView, id: i64|
        #![trigger is_buffer_row_key(key, id)]
        is_buffer_row_key(key, id) && (total == 0 || id < checks.buffers_next_id->Ok_0 || id
            >= checks.buffers_next_id->Ok_0 + total) implies same_at(tree, after, key) by {
        assert(!writes_to(writes, key)) by {
            if writes_to(writes, key) {
                let k = choose|k: int| 0 <= k < writes.len() && (#[trigger] writes[k]).key() == key;
                let op = writes[k];
                assert(writes.contains(op));
                lemma_edit_keys(address, target.list_number, output, op);
                let m = choose|m: int|
                    0 <= m < output.buffer_inserts.len() && #[trigger] output.buffer_inserts[m].new_id == id;
                assert(state.rest.buffers[m].new_id == start.rest.next_buffer_id + m);
            }
        }
        lemma_unwritten(tree, writes, key);
    }
}

pub open spec fn start_of(answers: Answers, target: EditTarget, address: AddressView, author_id: i64) -> EditState {
    start_state(
        answers,
        address,
        target.list_number,
        author_id,
        target.head_id,
        target.tail_id,
        target.next_piece_id,
        target.next_buffer_id,
    )
}

/// The key of the write is one that an edit writes to.
spec fn is_edit_key(list_number: i64, output: OutputView, op: BatchOpView) -> bool {
    match op.key() {
        KeyView::Column { table, row_id, .. } => {
            ||| table == "_piecetext_buffers"@ && exists|m: int|
                0 <= m < output.buffer_inserts.len() && #[trigger] output.buffer_inserts[m].new_id == row_id
            ||| table == "_piecetext_pieces"@ && exists|column: PieceColumn|
                op.key() == #[trigger] piece_key(row_id, column)
        },
        KeyView::Index { table, row_id, .. } => {
            ||| table == "_piecetext_buffers"@ && exists|m: int|
                0 <= m < output.buffer_inserts.len() && #[trigger] output.buffer_inserts[m].new_id == row_id
            ||| table == "_piecetext_pieces"@ && exists|m: int|
                0 <= m < output.piece_inserts.len() && #[trigger] output.piece_inserts[m].new_id == row_id
                    && piece_writes(output.piece_inserts[m])->Ok_0.contains(op)
        },
        KeyView::NextId { table } => {
            ||| table == "_piecetext_buffers"@ && output.buffers_next_id_post is Some
            ||| table == "_piecetext_pieces"@ && output.piece_next_id_post is Some
        },
        KeyView::PieceHead { list_number: n } => n == list_number,
        KeyView::PieceTail { list_number: n } => n == list_number,
        _ => false,
    }
}

/// The keys that an edit writes to.
proof fn lemma_edit_keys(address: AddressView, list_number: i64, output: OutputView, op: BatchOpView)
    requires
        is_edit_write(address, list_number, output, op),
        forall|k: int|
            0 <= k < output.buffer_inserts.len() ==> buffer_writes(
                #[trigger] output.buffer_inserts[k],
                address,
            ) is Ok,
        forall|k: int| 0 <= k < output.piece_inserts.len() ==> piece_writes(#[trigger] output.piece_inserts[k]) is Ok,
    ensures
        is_edit_key(list_number, output, op),
        match op.key() {
            KeyView::Column { table, row_id, column } => table == "_piecetext_pieces"@ && is_indexed(column)
                ==> exists|m: int|
                0 <= m < output.piece_inserts.len() && #[trigger] output.piece_inserts[m].new_id == row_id,
            _ => true,
        },
{
    lemma_table_names();
    lemma_column_names();
    if exists|k: int|
        0 <= k < output.buffer_inserts.len() && buffer_writes(
            #[trigger] output.buffer_inserts[k],
            address,
        )->Ok_0.contains(op) {
        let k = choose|k: int|
            0 <= k < output.buffer_inserts.len() && buffer_writes(
                #[trigger] output.buffer_inserts[k],
                address,
            )->Ok_0.contains(op);
        lemma_buffer_keys(output.buffer_inserts[k], address, op);
        assert(output.buffer_inserts[k].new_id == output.buffer_inserts[k].new_id);
        assert(is_edit_key(list_number, output, op));
    } else if exists|k: int|
        0 <= k < output.piece_inserts.len() && piece_writes(#[trigger] output.piece_inserts[k])->Ok_0.contains(
            op,
        ) {
        let k = choose|k: int|
            0 <= k < output.piece_inserts.len() && piece_writes(
                #[trigger] output.piece_inserts[k],
            )->Ok_0.contains(op);
        let own = piece_writes(output.piece_inserts[k])->Ok_0;
        let id = output.piece_inserts[k].new_id;
        let j = own.index_of(op);
        assert(own.len() == 9);
        assert(own[j] == op);
        if j >= 7 {
            assert(output.piece_inserts[k].new_id == id);
            assert(own.contains(op));
            assert(op.key() is Index && op.key()->Index_row_id == id && op.key()->Index_table
                == "_piecetext_pieces"@);
            assert(is_edit_key(list_number, output, op));
        } else {
            let columns = seq![
                PieceColumn::ListNumber,
                PieceColumn::PrevId,
                PieceColumn::NextId,
                PieceColumn::BufferId,
                PieceColumn::StartByte,
                PieceColumn::LenBytes,
                PieceColumn::Tombstone,
            ];
            let column = columns[j];
            assert(op.key() == piece_key(id, column));
            assert(is_edit_key(list_number, output, op));
        }
    } else if is_update_of(output.piece_updates, op.key()) {
        let k = choose|k: int|
            0 <= k < output.piece_updates.len() && {
                let id = (#[trigger] output.piece_updates[k]).id;
                ||| op.key() == piece_key(id, PieceColumn::PrevId)
                ||| op.key() == piece_key(id, PieceColumn::NextId)
                ||| op.key() == piece_key(id, PieceColumn::LenBytes)
                ||| op.key() == piece_key(id, PieceColumn::Tombstone)
            };
        let id = output.piece_updates[k].id;
        let a = piece_key(id, PieceColumn::PrevId);
        let b = piece_key(id, PieceColumn::NextId);
        let c = piece_key(id, PieceColumn::LenBytes);
        let d = piece_key(id, PieceColumn::Tombstone);
        assert(op.key() == a || op.key() == b || op.key() == c || op.key() == d);
        assert(is_edit_key(list_number, output, op));
    } else if next_id_writes(buffer_table(), output.buffers_next_id_post).contains(op) {
        let some = next_id_writes(buffer_table(), output.buffers_next_id_post);
        assert(some[some.index_of(op)] == op);
    } else if next_id_writes(piece_table(), output.piece_next_id_post).contains(op) {
        let some = next_id_writes(piece_table(), output.piece_next_id_post);
        assert(some[some.index_of(op)] == op);
    }
}

/// The columns that are indexed are not those that a change writes.
proof fn lemma_column_names()
    ensures
        !is_indexed("prev_id"@),
        !is_indexed("next_id"@),
        !is_indexed("len_bytes"@),
        !is_indexed("tombstone"@),
        "buffer_id"@ != "list_number"@,
{
    reveal_strlit("buffer_id");
    reveal_strlit("list_number");
    reveal_strlit("prev_id");
    reveal_strlit("next_id");
    reveal_strlit("len_bytes");
    reveal_strlit("tombstone");
    assert("buffer_id"@[0] == 'b' && "list_number"@[0] == 'l');
    assert("prev_id"@[0] == 'p' && "next_id"@[0] == 'n' && "tombstone"@[0] == 't');
    assert("len_bytes"@[1] == 'e' && "list_number"@[1] == 'i' && "len_bytes"@[0] == 'l');
}

// ---------- indexes and counters ----------

/// The key may change in an edit that leads to these pieces: a cell of a row of the
/// document, but of what a row is found by and where it starts only in a new row; an
/// index entry of a new row; a cell or an entry of a new buffer; a counter that was
/// taken from; or an endpoint of the list.
pub open spec fn may_edit(
    list_number: i64,
    pieces: Seq<Piece>,
    new_rows: (int, int),
    new_buffers: (int, int),
    key: KeyView,
) -> bool {
    match key {
        KeyView::Column { table, row_id, column } => {
            ||| table == "_piecetext_buffers"@ && new_buffers.0 <= row_id < new_buffers.1
            ||| table == "_piecetext_pieces"@ && has_id(pieces, row_id) && (is_indexed(column)
                ==> new_rows.0 <= row_id < new_rows.1)
        },
        KeyView::Index { table, row_id, .. } => {
            ||| table == "_piecetext_buffers"@ && new_buffers.0 <= row_id < new_buffers.1
            ||| table == "_piecetext_pieces"@ && new_rows.0 <= row_id < new_rows.1
        },
        KeyView::NextId { table } => {
            ||| table == "_piecetext_buffers"@ && new_buffers.0 < new_buffers.1
            ||| table == "_piecetext_pieces"@ && new_rows.0 < new_rows.1
        },
        KeyView::PieceHead { list_number: n } => n == list_number,
        KeyView::PieceTail { list_number: n } => n == list_number,
        _ => false,
    }
}

/// The entries of a new row are under what its cells have.
proof fn lemma_new_row_indexed(tree: Tree, writes: Seq<BatchOpView>, row: PieceRowInsert)
    requires
        !repeats_key(writes),
        piece_writes(row) is Ok,
        all_in(piece_writes(row)->Ok_0, writes),
        forall|op: BatchOpView| #[trigger]
            writes.contains(op) ==> (op.key() matches KeyView::Index { table, row_id, .. } && table
                == "_piecetext_pieces"@ && row_id == row.new_id ==> piece_writes(row)->Ok_0.contains(op)),
        not_indexed(tree, row.new_id),
    ensures
        well_indexed(written(tree, writes), row.new_id),
{
    let id = row.new_id;
    let own = piece_writes(row)->Ok_0;
    let end = written(tree, writes);
    lemma_table_names();
    lemma_column_names();
    assert(own.len() == 9);
    assert forall|k: int| 0 <= k < 9 implies writes.contains(#[trigger] own[k]) by {
        assert(own.contains(own[k]));
    }
    let (list, buffer) = (row.list_number, row.coord.buffer_id);
    assert(own[0] == (BatchOpView::Put {
        key: piece_cell_key(id, "list_number"@),
        value: ValueView::Int(list),
    }));
    assert(own[3] == (BatchOpView::Put { key: piece_cell_key(id, "buffer_id"@), value: ValueView::Int(buffer) }));
    let by_buffer = piece_entry_key("buffer_id"@, buffer, id);
    let by_list = piece_entry_key("list_number"@, list, id);
    assert(own[7] == (BatchOpView::Put { key: by_buffer, value: ValueView::RowId(id) }));
    assert(own[8] == (BatchOpView::Put { key: by_list, value: ValueView::RowId(id) }));
    lemma_puts_alone(tree, writes, piece_cell_key(id, "list_number"@), ValueView::Int(list));
    lemma_puts_alone(tree, writes, piece_cell_key(id, "buffer_id"@), ValueView::Int(buffer));
    lemma_puts_alone(tree, writes, by_buffer, ValueView::RowId(id));
    lemma_puts_alone(tree, writes, by_list, ValueView::RowId(id));
    assert forall|column: Seq<char>, value: i64|
        #![trigger piece_entry_key(column, value, id)]
        is_indexed(column) implies {
        &&& end.contains_key(piece_entry_key(column, value, id)) <==> holds(
            end,
            piece_cell_key(id, column),
            ValueView::Int(value),
        )
        &&& end.contains_key(piece_entry_key(column, value, id)) ==> end[piece_entry_key(column, value, id)]
            == ValueView::RowId(id)
    } by {
        let key = piece_entry_key(column, value, id);
        if key != by_buffer && key != by_list {
            assert(!writes_to(writes, key)) by {
                if writes_to(writes, key) {
                    let k = choose|k: int| 0 <= k < writes.len() && (#[trigger] writes[k]).key() == key;
                    assert(writes.contains(writes[k]));
                    let j = own.index_of(writes[k]);
                    assert(own[j] == writes[k]);
                    assert(j == 7 || j == 8);
                }
            }
            lemma_unwritten(tree, writes, key);
            assert(!tree.contains_key(key));
        }
    }
}

/// What an accepted edit does to the tree beside the chain. Where the index entries
/// of a row agree with its cells, they do so afterwards, and a new row, which no
/// entry named, has its entries. The counter of rows is behind the new ones. Nothing
/// but what an edit may change changes: no row of another document, no buffer that
/// was there.
pub proof fn law_edit_keeps_indexes(
    answers: Answers,
    checks: EditChecks,
    entry: ChangelogEntry,
    tree: Tree,
    pieces: Seq<Piece>,
)
    requires
        edit_operation(answers, checks, entry) is Ok,
        ({
            let envelope = decode_message(entry.message@)->Ok_0;
            let target = edit_target(answers, checks, envelope)->Ok_0;
            &&& well_formed(answers, target, envelope.ops, pieces)
            &&& chain_of(target, pieces).has_room_for(envelope.ops.len() as int)
        }),
    ensures
        ({
            let envelope = decode_message(entry.message@)->Ok_0;
            let target = edit_target(answers, checks, envelope)->Ok_0;
            let end = written(tree, edit_operation(answers, checks, entry)->Ok_0.0);
            let chain = chain_of(target, pieces).steps(envelope.ops)->Some_0;
            let total = inserts_before(envelope.ops, envelope.ops.len() as int);
            let new_rows = (target.next_piece_id as int, chain.next_piece_id as int);
            let new_buffers = (target.next_buffer_id as int, target.next_buffer_id + total);
            &&& forall|id: i64|
                !(new_rows.0 <= id < new_rows.1) && #[trigger] well_indexed(tree, id) ==> well_indexed(end, id)
            &&& forall|id: i64|
                new_rows.0 <= id < new_rows.1 && #[trigger] not_indexed(tree, id) ==> well_indexed(end, id)
            &&& new_rows.0 < new_rows.1 ==> holds(
                end,
                KeyView::NextId { table: "_piecetext_pieces"@ },
                ValueView::Raw(i64_be(chain.next_piece_id)),
            )
            &&& forall|key: KeyView|
                !may_edit(target.list_number, chain.pieces, new_rows, new_buffers, key) ==> #[trigger] same_at(
                    tree,
                    end,
                    key,
                )
        }),
{
    let envelope = decode_message(entry.message@)->Ok_0;
    let ops = envelope.ops;
    let target = edit_target(answers, checks, envelope)->Ok_0;
    let list_number = target.list_number;
    let address = envelope.address;
    let start = start_of(answers, target, address, entry.uid as i64);
    let state = edited(answers, target, envelope, entry.uid as i64)->Ok_0;
    let output = state.output();
    let originals = coords_by_id(output.trace.rows);
    let writes = edit_operation(answers, checks, entry)->Ok_0.0;
    let end = written(tree, writes);
    let c = chain_of(target, pieces);
    lemma_edited(answers, target, envelope, entry.uid as i64, pieces);
    let chain = c.steps(ops)->Some_0;
    let total = inserts_before(ops, ops.len() as int);
    let new_rows = (target.next_piece_id as int, chain.next_piece_id as int);
    let new_buffers = (target.next_buffer_id as int, target.next_buffer_id + total);
    lemma_has_added(start, ops);
    lemma_edit_writes_in(address, list_number, output, originals);
    lemma_row_writes(address, list_number, c, chain, output, originals);
    lemma_table_names();
    lemma_column_names();
    let main = row_writes(address, output, originals);
    let head = endpoint_writes(KeyView::PieceHead { list_number }, output.head_update);
    let tail = endpoint_writes(KeyView::PieceTail { list_number }, output.tail_update);
    assert(writes =~= main + head + tail);
    let fresh = fresh_ids(target.next_piece_id as int, chain.next_piece_id as int);
    assert forall|m: int| 0 <= m < output.piece_inserts.len() implies (
    #[trigger] output.piece_inserts[m]).new_id == target.next_piece_id + m by {
        assert(fresh[m] == target.next_piece_id + m);
        assert(has_id(chain.pieces, fresh[m]));
        lemma_row_with_id(list_number, chain.pieces, fresh[m]);
        assert(output.piece_inserts[m] == row_insert(row_with(list_number, chain.pieces, fresh[m])));
    }
    assert(output.piece_inserts.len() == new_rows.1 - new_rows.0);
    assert forall|op: BatchOpView| #[trigger] writes.contains(op) implies may_edit(
        list_number,
        chain.pieces,
        new_rows,
        new_buffers,
        op.key(),
    ) by {
        lemma_edit_keys(address, list_number, output, op);
        assert(is_edit_key(list_number, output, op));
        let k = writes.index_of(op);
        match op.key() {
            KeyView::Column { table, row_id, column } => {
                if table == "_piecetext_pieces"@ {
                    let named = choose|named: PieceColumn| op.key() == #[trigger] piece_key(row_id, named);
                    assert(op.key() == piece_key(row_id, named));
                    assert(k < main.len()) by {
                        if k >= main.len() + head.len() {
                            assert(writes[k] == tail[k - main.len() - head.len()]);
                        } else if k >= main.len() {
                            assert(writes[k] == head[k - main.len()]);
                        }
                    }
                    assert(main[k].key() == piece_key(row_id, named));
                    assert(has_id(chain.pieces, row_id));
                    if is_indexed(column) {
                        let m = choose|m: int|
                            0 <= m < output.piece_inserts.len() && #[trigger] output.piece_inserts[m].new_id == row_id;
                        assert(output.piece_inserts[m].new_id == target.next_piece_id + m);
                    }
                } else {
                    let m = choose|m: int|
                        0 <= m < output.buffer_inserts.len() && #[trigger] output.buffer_inserts[m].new_id == row_id;
                    assert(state.rest.buffers[m].new_id == start.rest.next_buffer_id + m);
                }
            },
            KeyView::Index { table, row_id, .. } => {
                if table == "_piecetext_pieces"@ {
                    let m = choose|m: int|
                        0 <= m < output.piece_inserts.len() && #[trigger] output.piece_inserts[m].new_id == row_id;
                    assert(output.piece_inserts[m].new_id == target.next_piece_id + m);
                } else {
                    let m = choose|m: int|
                        0 <= m < output.buffer_inserts.len() && #[trigger] output.buffer_inserts[m].new_id == row_id;
                    assert(state.rest.buffers[m].new_id == start.rest.next_buffer_id + m);
                }
            },
            _ => {},
        }
    }
    assert forall|key: KeyView|
        !may_edit(list_number, chain.pieces, new_rows, new_buffers, key) implies #[trigger] same_at(
        tree,
        end,
        key,
    ) by {
        assert(!writes_to(writes, key)) by {
            if writes_to(writes, key) {
                let k = choose|k: int| 0 <= k < writes.len() && (#[trigger] writes[k]).key() == key;
                assert(writes.contains(writes[k]));
            }
        }
        lemma_unwritten(tree, writes, key);
    }
    if new_rows.0 < new_rows.1 {
        let key = KeyView::NextId { table: "_piecetext_pieces"@ };
        let put = BatchOpView::Put { key, value: ValueView::Raw(i64_be(chain.next_piece_id)) };
        let some = next_id_writes(piece_table(), output.piece_next_id_post);
        assert(some[0] == put);
        assert(some.contains(put));
        lemma_puts_alone(tree, writes, key, ValueView::Raw(i64_be(chain.next_piece_id)));
    }
    assert forall|id: i64| !(new_rows.0 <= id < new_rows.1) && #[trigger] well_indexed(tree, id) implies well_indexed(
        end,
        id,
    ) by {
        assert forall|column: Seq<char>, value: i64|
            #![trigger piece_entry_key(column, value, id)]
            is_indexed(column) implies {
            &&& end.contains_key(piece_entry_key(column, value, id)) <==> holds(
                end,
                piece_cell_key(id, column),
                ValueView::Int(value),
            )
            &&& end.contains_key(piece_entry_key(column, value, id)) ==> end[piece_entry_key(column, value, id)]
                == ValueView::RowId(id)
        } by {
            assert(same_at(tree, end, piece_entry_key(column, value, id)));
            assert(same_at(tree, end, piece_cell_key(id, column)));
        }
    }
    assert forall|id: i64| new_rows.0 <= id < new_rows.1 && #[trigger] not_indexed(tree, id) implies well_indexed(
        end,
        id,
    ) by {
        let m = id - new_rows.0;
        let row = output.piece_inserts[m];
        assert(row.new_id == id);
        assert forall|op: BatchOpView| #[trigger] writes.contains(op) implies (op.key() matches KeyView::Index {
            table,
            row_id,
            ..
        } && table == "_piecetext_pieces"@ && row_id == row.new_id ==> piece_writes(row)->Ok_0.contains(op)) by {
            lemma_edit_keys(address, list_number, output, op);
            assert(is_edit_key(list_number, output, op));
            if let KeyView::Index { table, row_id, .. } = op.key() {
                if table == "_piecetext_pieces"@ && row_id == id {
                    let j = choose|j: int|
                        0 <= j < output.piece_inserts.len() && #[trigger] output.piece_inserts[j].new_id == row_id
                            && piece_writes(output.piece_inserts[j])->Ok_0.contains(op);
                    assert(output.piece_inserts[j].new_id == target.next_piece_id + j);
                    assert(j == m);
                }
            }
        }
        lemma_new_row_indexed(tree, writes, row);
    }
}

} // verus!
