//! When edits are accepted, and what is counted of them.

use vstd::prelude::*;

use crate::changelog::ChangelogEntry;
use crate::ops::piece_text_acceptance_laws::{
    law_buffers_checked, law_edit_permitted, lemma_no_repeats, lies_in_own_buffer,
};
use crate::ops::piece_text_buffer_laws::{lemma_has_added, start_of};
use crate::ops::piece_text_edit_op::{
    buffer_writes, buffers_checked, buffers_writes, checked_writes, coord_writes, coords_by_id, edit_operation,
    edit_target, edit_writes, edited, endpoint_writes, next_id_writes, piece_writes, pieces_writes,
    planned_rows_fault, planned_updates_fault, update_writes, updates_writes, EditChecks, EditTarget,
};
use crate::ops::piece_text_edit_op_laws::{
    chain_of, lemma_deletes_only, lemma_edited, lemma_row_in_place, lemma_row_with_id, well_formed,
};
use crate::ops::piece_text_tree::{lemma_piece_keys, reads_tree, Tree};
use crate::ops::{lemma_first_repeated, repeats_key};
use crate::piece_text::{decode_message, insert_total, AddressView, EnvelopeView, PieceCoord};
use crate::piece_text_chain::{distinct, is_linked, row_in, Piece};
use crate::piece_text_chain_walks::lemma_chain_ends;
use crate::piece_text_edit_laws::{edit_is_at, is_state, law_edit_steps, lemma_edit_ids, ChainState};
use crate::piece_text_edit_writes::{changed_rows, fresh_ids, has_id, row_with};
use crate::piece_text_envelope_laws::law_edit_message;
use crate::piece_text_inserts::{inserts_before, lemma_insert_total, lemma_inserts_before};
use crate::piece_text_overlay::{edit_doc, start_fault, EditState, OverlayRest};
use crate::piece_text_planner::{BufferInsertView, OutputView, PieceRow, PieceRowInsert, PieceRowUpdate};
use crate::piece_text_resolver::{piece_key, PieceColumn};
use crate::piece_text_staging::{ids_where, lemma_ids_below, row_change, row_changes, row_insert};
use crate::storage::{buffer_table, piece_table, Answers, BatchOpView, KeyView};

verus! {

// ---------- operations ----------

/// The operations of an edit go through on a well-formed document if and only if its
/// chain takes them.
proof fn lemma_goes_through(
    answers: Answers,
    target: EditTarget,
    envelope: EnvelopeView,
    author_id: i64,
    pieces: Seq<Piece>,
)
    requires
        well_formed(answers, target, envelope.ops, pieces),
        chain_of(target, pieces).has_room_for(envelope.ops.len() as int),
        target.list_number > 0,
        insert_total(envelope.ops) == 0 ==> target.next_buffer_id >= 1,
    ensures
        edited(answers, target, envelope, author_id) is Ok <==> chain_of(target, pieces).steps(
            envelope.ops,
        ) is Some,
{
    let ops = envelope.ops;
    let c = chain_of(target, pieces);
    let doc = edit_doc(answers, target.list_number, target.head_id, target.tail_id, target.next_piece_id);
    let start = start_of(answers, target, envelope.address, author_id);
    let next = if insert_total(ops) > 0 {
        target.next_buffer_id
    } else {
        i64::MAX
    };
    let d = ChainState { next_buffer_id: next, ..c };
    let state = EditState { rest: OverlayRest { next_buffer_id: next, ..start.rest }, ..start };
    if insert_total(ops) == 0 {
        lemma_deletes_only(start, c, next, ops);
    } else {
        assert(d == c && state == start);
    }
    assert(is_state(state.doc, d));
    assert(edit_is_at(state, d));
    law_edit_steps(state, d, ops);
    lemma_chain_ends(doc, pieces);
    assert(start_fault(
        target.list_number,
        target.head_id,
        target.tail_id,
        target.next_piece_id,
        target.next_buffer_id,
    ) is None) by {
        reveal(is_linked);
        if pieces.len() > 0 {
            assert(pieces[0].id > 0 && pieces[pieces.len() - 1].id > 0);
            assert(doc.at(pieces[0].id) is Ok);
            assert(doc.at(pieces[pieces.len() - 1].id) is Ok);
        }
    }
}

// ---------- rows that may be written ----------

/// The range starts and ends between two scalars.
pub open spec fn is_aligned(coord: PieceCoord) -> bool {
    coord.start_byte % 4 == 0 && coord.len_bytes % 4 == 0
}

/// A piece after an edit may be written: a new one in a buffer and over whole
/// scalars, and one that was there as it was, or from where it was in its buffer on,
/// over whole scalars.
pub open spec fn may_become(before: Seq<Piece>, piece: Piece) -> bool {
    if has_id(before, piece.id) {
        exists|i: int|
            0 <= i < before.len() && (#[trigger] before[i]).id == piece.id && (before[i].coord == piece.coord || (
            is_aligned(piece.coord) && before[i].coord.buffer_id == piece.coord.buffer_id
                && before[i].coord.start_byte == piece.coord.start_byte))
    } else {
        is_aligned(piece.coord) && piece.coord.buffer_id > 0
    }
}

proof fn lemma_planned_rows(rows: Seq<PieceRowInsert>)
    ensures
        planned_rows_fault(rows) is None <==> forall|k: int|
            0 <= k < rows.len() ==> is_aligned((#[trigger] rows[k]).coord),
    decreases rows.len(),
{
    if rows.len() > 0 {
        let rest = rows.drop_last();
        lemma_planned_rows(rest);
        assert(rows[rows.len() - 1] == rows.last());
        if planned_rows_fault(rest) is Some {
            let k = choose|k: int| 0 <= k < rest.len() && !is_aligned((#[trigger] rest[k]).coord);
            assert(rows[k] == rest[k]);
        } else {
            assert forall|k: int| 0 <= k < rest.len() implies is_aligned((#[trigger] rows[k]).coord) by {
                assert(rest[k] == rows[k]);
            }
        }
    }
}

/// The change leaves no range that splits a scalar.
spec fn update_aligned(update: PieceRowUpdate) -> bool {
    update.coord matches Some(coord) ==> is_aligned(coord)
}

/// The change keeps the start of a range that was found.
spec fn update_keeps_start(update: PieceRowUpdate, originals: Map<i64, PieceCoord>) -> bool {
    update.coord matches Some(coord) ==> originals.contains_key(update.id) && originals[update.id].buffer_id
        == coord.buffer_id && originals[update.id].start_byte == coord.start_byte
}

proof fn lemma_planned_updates(updates: Seq<PieceRowUpdate>)
    ensures
        planned_updates_fault(updates) is None <==> forall|k: int|
            0 <= k < updates.len() ==> update_aligned(#[trigger] updates[k]),
    decreases updates.len(),
{
    if updates.len() > 0 {
        let rest = updates.drop_last();
        lemma_planned_updates(rest);
        assert(updates[updates.len() - 1] == updates.last());
        if planned_updates_fault(rest) is Some {
            let k = choose|k: int| 0 <= k < rest.len() && !update_aligned(#[trigger] rest[k]);
            assert(updates[k] == rest[k]);
        } else {
            assert forall|k: int| 0 <= k < rest.len() implies update_aligned(#[trigger] updates[k]) by {
                assert(rest[k] == updates[k]);
            }
        }
    }
}

/// A row that can be written.
spec fn insert_fits(row: PieceRowInsert) -> bool {
    row.new_id > 0 && row.list_number > 0 && row.coord.buffer_id > 0
}

/// A key of a class above those given.
spec fn class_of(next_id: i64, key: KeyView) -> int {
    match key {
        KeyView::Column { table, row_id, .. } => if table == buffer_table() {
            1
        } else if row_id >= next_id {
            3
        } else {
            4
        },
        KeyView::Index { table, row_id, .. } => if table == buffer_table() {
            1
        } else if row_id >= next_id {
            3
        } else {
            4
        },
        KeyView::NextId { table } => if table == buffer_table() {
            2
        } else {
            5
        },
        KeyView::PieceHead { .. } => 6,
        KeyView::PieceTail { .. } => 7,
        _ => 8,
    }
}

spec fn all_below(next_id: i64, writes: Seq<BatchOpView>, class: int) -> bool {
    forall|k: int| 0 <= k < writes.len() ==> class_of(next_id, (#[trigger] writes[k]).key()) < class
}

spec fn all_at(next_id: i64, writes: Seq<BatchOpView>, class: int) -> bool {
    forall|k: int| 0 <= k < writes.len() ==> class_of(next_id, (#[trigger] writes[k]).key()) == class
}

proof fn lemma_add_class(next_id: i64, a: Seq<BatchOpView>, b: Seq<BatchOpView>, class: int)
    requires
        !repeats_key(a),
        !repeats_key(b),
        all_below(next_id, a, class),
        all_at(next_id, b, class),
    ensures
        !repeats_key(a + b),
        all_below(next_id, a + b, class + 1),
{
    assert forall|i: int, j: int| 0 <= i < a.len() && 0 <= j < b.len() implies (#[trigger] a[i]).key() != (
    #[trigger] b[j]).key() by {
        assert(class_of(next_id, a[i].key()) < class_of(next_id, b[j].key()));
    }
    lemma_no_repeats(a, b);
    let all = a + b;
    assert forall|k: int| 0 <= k < all.len() implies class_of(next_id, (#[trigger] all[k]).key()) < class + 1 by {
        if k < a.len() {
            assert(all[k] == a[k]);
        } else {
            assert(all[k] == b[k - a.len()]);
        }
    }
}

/// The key is that of a cell or an entry of the row.
spec fn names_row(table: Seq<char>, id: i64, key: KeyView) -> bool {
    match key {
        KeyView::Column { table: t, row_id, .. } => t == table && row_id == id,
        KeyView::Index { table: t, row_id, .. } => t == table && row_id == id,
        _ => false,
    }
}

spec fn names_one(table: Seq<char>, ids: Seq<i64>, key: KeyView) -> bool {
    exists|m: int| 0 <= m < ids.len() && names_row(table, #[trigger] ids[m], key)
}

spec fn all_name(table: Seq<char>, ids: Seq<i64>, writes: Seq<BatchOpView>) -> bool {
    forall|k: int| 0 <= k < writes.len() ==> names_one(table, ids, (#[trigger] writes[k]).key())
}

proof fn lemma_names_differ(a: Seq<BatchOpView>, b: Seq<BatchOpView>, table: Seq<char>, ids: Seq<i64>, id: i64)
    requires
        !repeats_key(a),
        !repeats_key(b),
        all_name(table, ids, a),
        forall|k: int| 0 <= k < b.len() ==> names_row(table, id, (#[trigger] b[k]).key()),
        !ids.contains(id),
    ensures
        !repeats_key(a + b),
{
    assert forall|i: int, j: int| 0 <= i < a.len() && 0 <= j < b.len() implies (#[trigger] a[i]).key() != (
    #[trigger] b[j]).key() by {
        assert(names_one(table, ids, a[i].key()));
        let m = choose|m: int| 0 <= m < ids.len() && names_row(table, #[trigger] ids[m], a[i].key());
        assert(ids.contains(ids[m]));
        assert(names_row(table, id, b[j].key()));
    }
    lemma_no_repeats(a, b);
}

proof fn lemma_names_on(
    a: Seq<BatchOpView>,
    b: Seq<BatchOpView>,
    table: Seq<char>,
    rest: Seq<i64>,
    ids: Seq<i64>,
)
    requires
        ids.len() == rest.len() + 1,
        rest == ids.drop_last(),
        all_name(table, rest, a),
        forall|k: int| 0 <= k < b.len() ==> names_row(table, ids.last(), (#[trigger] b[k]).key()),
    ensures
        all_name(table, ids, a + b),
{
    let all = a + b;
    assert forall|k: int| 0 <= k < all.len() implies names_one(table, ids, (#[trigger] all[k]).key()) by {
        if k < a.len() {
            assert(all[k] == a[k]);
            assert(names_one(table, rest, a[k].key()));
            let m = choose|m: int| 0 <= m < rest.len() && names_row(table, #[trigger] rest[m], a[k].key());
            assert(ids[m] == rest[m]);
        } else {
            assert(all[k] == b[k - a.len()]);
            assert(names_row(table, ids[ids.len() - 1], all[k].key()));
        }
    }
}

// ---------- buffers ----------

proof fn lemma_buffer_names()
    ensures
        "owner_table"@ != "owner_row_id"@,
        "owner_table"@ != "owner_column"@,
        "owner_table"@ != "author_id"@,
        "owner_table"@ != "len_bytes"@,
        "owner_table"@ != "contents"@,
        "owner_row_id"@ != "owner_column"@,
        "owner_row_id"@ != "author_id"@,
        "owner_row_id"@ != "len_bytes"@,
        "owner_row_id"@ != "contents"@,
        "owner_column"@ != "author_id"@,
        "owner_column"@ != "len_bytes"@,
        "owner_column"@ != "contents"@,
        "author_id"@ != "len_bytes"@,
        "author_id"@ != "contents"@,
        "len_bytes"@ != "contents"@,
{
    reveal_strlit("owner_table");
    reveal_strlit("owner_row_id");
    reveal_strlit("owner_column");
    reveal_strlit("author_id");
    reveal_strlit("len_bytes");
    reveal_strlit("contents");
    assert("owner_table"@.len() == 11 && "owner_row_id"@.len() == 12 && "owner_column"@.len() == 12);
    assert("author_id"@.len() == 9 && "len_bytes"@.len() == 9 && "contents"@.len() == 8);
    assert("owner_row_id"@[6] == 'r' && "owner_column"@[6] == 'c');
    assert("author_id"@[0] == 'a' && "len_bytes"@[0] == 'l');
}

proof fn lemma_buffer_once(insert: BufferInsertView, address: AddressView)
    requires
        buffer_writes(insert, address) is Ok,
    ensures
        !repeats_key(buffer_writes(insert, address)->Ok_0),
        forall|k: int|
            0 <= k < buffer_writes(insert, address)->Ok_0.len() ==> names_row(
                buffer_table(),
                insert.new_id,
                (#[trigger] buffer_writes(insert, address)->Ok_0[k]).key(),
            ),
{
    let writes = buffer_writes(insert, address)->Ok_0;
    assert(writes.len() == 9);
    lemma_buffer_names();
    if repeats_key(writes) {
        let (i, j) = choose|i: int, j: int|
            0 <= i < j < writes.len() && #[trigger] writes[i].key() == #[trigger] writes[j].key();
        assert(j < 6 || i >= 6);
    }
}

spec fn buffer_ids(inserts: Seq<BufferInsertView>) -> Seq<i64> {
    inserts.map_values(|insert: BufferInsertView| insert.new_id)
}

proof fn lemma_buffers_once(inserts: Seq<BufferInsertView>, address: AddressView)
    requires
        address.row_id > 0,
        forall|k: int| 0 <= k < inserts.len() ==> (#[trigger] inserts[k]).new_id > 0,
        buffer_ids(inserts).no_duplicates(),
    ensures
        buffers_writes(inserts, address) is Ok,
        !repeats_key(buffers_writes(inserts, address)->Ok_0),
        all_name(buffer_table(), buffer_ids(inserts), buffers_writes(inserts, address)->Ok_0),
    decreases inserts.len(),
{
    if inserts.len() > 0 {
        let rest = inserts.drop_last();
        let last = inserts.last();
        let ids = buffer_ids(inserts);
        assert(inserts[inserts.len() - 1] == last);
        assert(buffer_ids(rest) =~= ids.drop_last());
        assert(buffer_ids(rest).no_duplicates()) by {
            assert forall|i: int, j: int|
                0 <= i < buffer_ids(rest).len() && 0 <= j < buffer_ids(rest).len() && i != j implies buffer_ids(
                rest,
            )[i] != buffer_ids(rest)[j] by {
                assert(ids[i] != ids[j]);
            }
        }
        assert forall|k: int| 0 <= k < rest.len() implies (#[trigger] rest[k]).new_id > 0 by {
            assert(rest[k] == inserts[k]);
        }
        lemma_buffers_once(rest, address);
        lemma_buffer_once(last, address);
        let a = buffers_writes(rest, address)->Ok_0;
        let b = buffer_writes(last, address)->Ok_0;
        assert(ids.last() == last.new_id);
        assert(!buffer_ids(rest).contains(last.new_id)) by {
            if buffer_ids(rest).contains(last.new_id) {
                let m = buffer_ids(rest).index_of(last.new_id);
                assert(ids[m] == ids[ids.len() - 1]);
            }
        }
        lemma_names_differ(a, b, buffer_table(), buffer_ids(rest), last.new_id);
        lemma_names_on(a, b, buffer_table(), buffer_ids(rest), ids);
    }
}

// ---------- new rows ----------

proof fn lemma_piece_once(row: PieceRowInsert)
    requires
        insert_fits(row),
    ensures
        piece_writes(row) is Ok,
        !repeats_key(piece_writes(row)->Ok_0),
        forall|k: int|
            0 <= k < piece_writes(row)->Ok_0.len() ==> names_row(
                piece_table(),
                row.new_id,
                (#[trigger] piece_writes(row)->Ok_0[k]).key(),
            ),
{
    let writes = piece_writes(row)->Ok_0;
    let columns = seq![
        PieceColumn::ListNumber,
        PieceColumn::PrevId,
        PieceColumn::NextId,
        PieceColumn::BufferId,
        PieceColumn::StartByte,
        PieceColumn::LenBytes,
        PieceColumn::Tombstone,
    ];
    assert(writes.len() == 9);
    assert forall|i: int| 0 <= i < 7 implies (#[trigger] writes[i]).key() == piece_key(row.new_id, columns[i]) by {}
    lemma_piece_keys(row.new_id, PieceColumn::BufferId, row.new_id, PieceColumn::ListNumber);
    if repeats_key(writes) {
        let (i, j) = choose|i: int, j: int|
            0 <= i < j < writes.len() && #[trigger] writes[i].key() == #[trigger] writes[j].key();
        if j < 7 {
            lemma_piece_keys(row.new_id, columns[i], row.new_id, columns[j]);
        }
    }
}

spec fn row_ids(rows: Seq<PieceRowInsert>) -> Seq<i64> {
    rows.map_values(|row: PieceRowInsert| row.new_id)
}

proof fn lemma_pieces_once(rows: Seq<PieceRowInsert>)
    requires
        row_ids(rows).no_duplicates(),
    ensures
        pieces_writes(rows) is Ok <==> forall|k: int| 0 <= k < rows.len() ==> insert_fits(#[trigger] rows[k]),
        pieces_writes(rows) matches Ok(writes) ==> !repeats_key(writes) && all_name(piece_table(), row_ids(rows), writes),
    decreases rows.len(),
{
    if rows.len() > 0 {
        let rest = rows.drop_last();
        let last = rows.last();
        let ids = row_ids(rows);
        assert(rows[rows.len() - 1] == last);
        assert(row_ids(rest) =~= ids.drop_last());
        assert(row_ids(rest).no_duplicates()) by {
            assert forall|i: int, j: int|
                0 <= i < row_ids(rest).len() && 0 <= j < row_ids(rest).len() && i != j implies row_ids(rest)[i]
                != row_ids(rest)[j] by {
                assert(ids[i] != ids[j]);
            }
        }
        lemma_pieces_once(rest);
        if pieces_writes(rest) is Err {
            let k = choose|k: int| 0 <= k < rest.len() && !insert_fits(#[trigger] rest[k]);
            assert(rows[k] == rest[k]);
        } else {
            assert forall|k: int| 0 <= k < rest.len() implies insert_fits(#[trigger] rows[k]) by {
                assert(rest[k] == rows[k]);
            }
        }
        if insert_fits(last) {
            lemma_piece_once(last);
        }
        if pieces_writes(rows) is Ok {
            let a = pieces_writes(rest)->Ok_0;
            let b = piece_writes(last)->Ok_0;
            assert(ids.last() == last.new_id);
            assert(!row_ids(rest).contains(last.new_id)) by {
                if row_ids(rest).contains(last.new_id) {
                    let m = row_ids(rest).index_of(last.new_id);
                    assert(ids[m] == ids[ids.len() - 1]);
                }
            }
            lemma_names_differ(a, b, piece_table(), row_ids(rest), last.new_id);
            lemma_names_on(a, b, piece_table(), row_ids(rest), ids);
        }
    }
}

// ---------- changed rows ----------

proof fn lemma_update_once(update: PieceRowUpdate, originals: Map<i64, PieceCoord>)
    ensures
        update_writes(update, originals) is Ok <==> update_keeps_start(update, originals),
        update_writes(update, originals) matches Ok(writes) ==> !repeats_key(writes) && forall|k: int|
            0 <= k < writes.len() ==> names_row(piece_table(), update.id, (#[trigger] writes[k]).key()),
{
    if let Ok(writes) = update_writes(update, originals) {
        let id = update.id;
        lemma_piece_keys(id, PieceColumn::PrevId, id, PieceColumn::NextId);
        lemma_piece_keys(id, PieceColumn::PrevId, id, PieceColumn::LenBytes);
        lemma_piece_keys(id, PieceColumn::PrevId, id, PieceColumn::Tombstone);
        lemma_piece_keys(id, PieceColumn::NextId, id, PieceColumn::LenBytes);
        lemma_piece_keys(id, PieceColumn::NextId, id, PieceColumn::Tombstone);
        lemma_piece_keys(id, PieceColumn::LenBytes, id, PieceColumn::Tombstone);
        assert(writes.len() <= 4);
        if update.coord is Some {
            assert(coord_writes(id, update.coord->Some_0, originals) is Ok);
        }
    }
}

spec fn update_ids(updates: Seq<PieceRowUpdate>) -> Seq<i64> {
    updates.map_values(|update: PieceRowUpdate| update.id)
}

proof fn lemma_updates_once(updates: Seq<PieceRowUpdate>, originals: Map<i64, PieceCoord>)
    requires
        update_ids(updates).no_duplicates(),
    ensures
        updates_writes(updates, originals) is Ok <==> forall|k: int|
            0 <= k < updates.len() ==> update_keeps_start(#[trigger] updates[k], originals),
        updates_writes(updates, originals) matches Ok(writes) ==> !repeats_key(writes) && all_name(
            piece_table(),
            update_ids(updates),
            writes,
        ),
    decreases updates.len(),
{
    if updates.len() > 0 {
        let rest = updates.drop_last();
        let last = updates.last();
        let ids = update_ids(updates);
        assert(updates[updates.len() - 1] == last);
        assert(update_ids(rest) =~= ids.drop_last());
        assert(update_ids(rest).no_duplicates()) by {
            assert forall|i: int, j: int|
                0 <= i < update_ids(rest).len() && 0 <= j < update_ids(rest).len() && i != j implies update_ids(
                rest,
            )[i] != update_ids(rest)[j] by {
                assert(ids[i] != ids[j]);
            }
        }
        lemma_updates_once(rest, originals);
        lemma_update_once(last, originals);
        if updates_writes(rest, originals) is Err {
            let k = choose|k: int| 0 <= k < rest.len() && !update_keeps_start(#[trigger] rest[k], originals);
            assert(updates[k] == rest[k]);
        } else {
            assert forall|k: int| 0 <= k < rest.len() implies update_keeps_start(
                #[trigger] updates[k],
                originals,
            ) by {
                assert(rest[k] == updates[k]);
            }
        }
        if updates_writes(updates, originals) is Ok {
            let a = updates_writes(rest, originals)->Ok_0;
            let b = update_writes(last, originals)->Ok_0;
            assert(ids.last() == last.id);
            assert(!update_ids(rest).contains(last.id)) by {
                if update_ids(rest).contains(last.id) {
                    let m = update_ids(rest).index_of(last.id);
                    assert(ids[m] == ids[ids.len() - 1]);
                }
            }
            lemma_names_differ(a, b, piece_table(), update_ids(rest), last.id);
            lemma_names_on(a, b, piece_table(), update_ids(rest), ids);
        }
    }
}

/// The changes are those of the pairs that differ.
proof fn lemma_row_changes(pairs: Seq<(PieceRow, PieceRow)>)
    ensures
        forall|k: int|
            0 <= k < row_changes(pairs).len() ==> exists|m: int|
                0 <= m < pairs.len() && row_change((#[trigger] pairs[m]).0, pairs[m].1) == Some(
                    #[trigger] row_changes(pairs)[k],
                ),
        forall|m: int|
            0 <= m < pairs.len() ==> (row_change((#[trigger] pairs[m]).0, pairs[m].1) matches Some(u)
                ==> row_changes(pairs).contains(u)),
        (forall|i: int, j: int| 0 <= i < j < pairs.len() ==> (#[trigger] pairs[i]).1.id < (#[trigger] pairs[j]).1.id)
            ==> forall|i: int, j: int|
            0 <= i < j < row_changes(pairs).len() ==> (#[trigger] row_changes(pairs)[i]).id < (
            #[trigger] row_changes(pairs)[j]).id,
    decreases pairs.len(),
{
    if pairs.len() > 0 {
        let rest = pairs.drop_last();
        let last = pairs.last();
        let n = pairs.len() - 1;
        lemma_row_changes(rest);
        assert(pairs[n] == last);
        assert forall|m: int| 0 <= m < n implies #[trigger] rest[m] == pairs[m] by {}
        let before = row_changes(rest);
        let all = row_changes(pairs);
        assert forall|k: int| 0 <= k < all.len() implies exists|m: int|
            0 <= m < pairs.len() && row_change((#[trigger] pairs[m]).0, pairs[m].1) == Some(#[trigger] all[k]) by {
            if k < before.len() {
                assert(all[k] == before[k]);
                let m = choose|m: int|
                    0 <= m < rest.len() && row_change((#[trigger] rest[m]).0, rest[m].1) == Some(before[k]);
                assert(pairs[m] == rest[m]);
            } else {
                assert(row_change(pairs[n].0, pairs[n].1) == Some(all[k]));
            }
        }
        assert forall|m: int| 0 <= m < pairs.len() implies (row_change((#[trigger] pairs[m]).0, pairs[m].1) matches Some(
            u,
        ) ==> all.contains(u)) by {
            if let Some(u) = row_change(pairs[m].0, pairs[m].1) {
                if m < n {
                    assert(rest[m] == pairs[m]);
                    let k = before.index_of(u);
                    assert(all[k] == u);
                } else {
                    assert(all[all.len() - 1] == u);
                }
            }
        }
        if forall|i: int, j: int|
            0 <= i < j < pairs.len() ==> (#[trigger] pairs[i]).1.id < (#[trigger] pairs[j]).1.id {
            assert forall|i: int, j: int| 0 <= i < j < rest.len() implies (#[trigger] rest[i]).1.id < (
            #[trigger] rest[j]).1.id by {
                assert(pairs[i].1.id < pairs[j].1.id);
            }
            assert forall|i: int, j: int| 0 <= i < j < all.len() implies (#[trigger] all[i]).id < (
            #[trigger] all[j]).id by {
                assert(all[i] == before[i]);
                if j < before.len() {
                    assert(all[j] == before[j]);
                } else {
                    let m = choose|m: int|
                        0 <= m < rest.len() && row_change((#[trigger] rest[m]).0, rest[m].1) == Some(before[i]);
                    assert(pairs[m].1.id < pairs[n].1.id);
                }
            }
        }
    }
}

// ---------- the writes ----------

proof fn lemma_tables()
    ensures
        piece_table() != buffer_table(),
{
    reveal_strlit("_piecetext_pieces");
    reveal_strlit("_piecetext_buffers");
    assert(piece_table().len() != buffer_table().len());
}

proof fn lemma_few(writes: Seq<BatchOpView>)
    requires
        writes.len() <= 1,
    ensures
        !repeats_key(writes),
{
}

/// The writes of an edit are refused only where a row cannot be written, or a change
/// moves the start of a row: no two of them are to the same key.
proof fn lemma_writes_accepted(
    address: AddressView,
    list_number: i64,
    next_id: i64,
    output: OutputView,
    originals: Map<i64, PieceCoord>,
)
    requires
        address.row_id > 0,
        forall|k: int| 0 <= k < output.buffer_inserts.len() ==> (#[trigger] output.buffer_inserts[k]).new_id > 0,
        buffer_ids(output.buffer_inserts).no_duplicates(),
        row_ids(output.piece_inserts).no_duplicates(),
        forall|k: int| 0 <= k < output.piece_inserts.len() ==> (#[trigger] output.piece_inserts[k]).new_id >= next_id,
        update_ids(output.piece_updates).no_duplicates(),
        forall|k: int| 0 <= k < output.piece_updates.len() ==> (#[trigger] output.piece_updates[k]).id < next_id,
    ensures
        checked_writes(address, list_number, output, originals) is Ok <==> {
            &&& forall|k: int|
                0 <= k < output.piece_inserts.len() ==> is_aligned((#[trigger] output.piece_inserts[k]).coord)
                    && insert_fits(output.piece_inserts[k])
            &&& forall|k: int|
                0 <= k < output.piece_updates.len() ==> update_aligned(#[trigger] output.piece_updates[k])
                    && update_keeps_start(output.piece_updates[k], originals)
        },
{
    lemma_tables();
    lemma_planned_rows(output.piece_inserts);
    lemma_planned_updates(output.piece_updates);
    lemma_buffers_once(output.buffer_inserts, address);
    lemma_pieces_once(output.piece_inserts);
    lemma_updates_once(output.piece_updates, originals);
    if edit_writes(address, list_number, output, originals) is Ok {
        let a = buffers_writes(output.buffer_inserts, address)->Ok_0;
        let b = next_id_writes(buffer_table(), output.buffers_next_id_post);
        let c = pieces_writes(output.piece_inserts)->Ok_0;
        let d = updates_writes(output.piece_updates, originals)->Ok_0;
        let e = next_id_writes(piece_table(), output.piece_next_id_post);
        let f = endpoint_writes(KeyView::PieceHead { list_number }, output.head_update);
        let g = endpoint_writes(KeyView::PieceTail { list_number }, output.tail_update);
        let writes = edit_writes(address, list_number, output, originals)->Ok_0;
        assert(writes == a + b + c + d + e + f + g);
        assert(all_below(next_id, a, 2)) by {
            assert forall|k: int| 0 <= k < a.len() implies class_of(next_id, (#[trigger] a[k]).key()) < 2 by {
                assert(names_one(buffer_table(), buffer_ids(output.buffer_inserts), a[k].key()));
            }
        }
        assert(all_at(next_id, c, 3)) by {
            assert forall|k: int| 0 <= k < c.len() implies class_of(next_id, (#[trigger] c[k]).key()) == 3 by {
                let ids = row_ids(output.piece_inserts);
                assert(names_one(piece_table(), ids, c[k].key()));
                let m = choose|m: int| 0 <= m < ids.len() && names_row(piece_table(), #[trigger] ids[m], c[k].key());
                assert(output.piece_inserts[m].new_id >= next_id);
            }
        }
        assert(all_at(next_id, d, 4)) by {
            assert forall|k: int| 0 <= k < d.len() implies class_of(next_id, (#[trigger] d[k]).key()) == 4 by {
                let ids = update_ids(output.piece_updates);
                assert(names_one(piece_table(), ids, d[k].key()));
                let m = choose|m: int| 0 <= m < ids.len() && names_row(piece_table(), #[trigger] ids[m], d[k].key());
                assert(output.piece_updates[m].id < next_id);
            }
        }
        lemma_few(b);
        lemma_few(e);
        lemma_few(f);
        lemma_few(g);
        lemma_add_class(next_id, a, b, 2);
        lemma_add_class(next_id, a + b, c, 3);
        lemma_add_class(next_id, a + b + c, d, 4);
        lemma_add_class(next_id, a + b + c + d, e, 5);
        lemma_add_class(next_id, a + b + c + d + e, f, 6);
        lemma_add_class(next_id, a + b + c + d + e + f, g, 7);
        lemma_first_repeated(writes);
    }
}

// ---------- edits ----------

/// What an edit that goes through writes: every new row, and every row that changed,
/// each of which it had found.
proof fn lemma_output(
    answers: Answers,
    target: EditTarget,
    envelope: EnvelopeView,
    author_id: i64,
    pieces: Seq<Piece>,
)
    requires
        edited(answers, target, envelope, author_id) is Ok,
        well_formed(answers, target, envelope.ops, pieces),
        chain_of(target, pieces).has_room_for(envelope.ops.len() as int),
    ensures
        ({
            let c = chain_of(target, pieces);
            let after = c.steps(envelope.ops)->Some_0;
            let output = edited(answers, target, envelope, author_id)->Ok_0.output();
            let originals = coords_by_id(output.trace.rows);
            let known = ids_where(|id: i64| has_id(pieces, id));
            &&& c.steps(envelope.ops) is Some
            &&& output.piece_inserts.len() == after.next_piece_id - c.next_piece_id
            &&& forall|m: int|
                0 <= m < output.piece_inserts.len() ==> #[trigger] output.piece_inserts[m] == row_insert(
                    row_with(target.list_number, after.pieces, (c.next_piece_id + m) as i64),
                )
            &&& output.piece_updates == changed_rows(target.list_number, pieces, after.pieces)
            &&& forall|k: int|
                0 <= k < output.piece_updates.len() ==> originals.contains_key((#[trigger] output.piece_updates[k]).id)
        }),
{
    let ops = envelope.ops;
    let list_number = target.list_number;
    let c = chain_of(target, pieces);
    let start = start_of(answers, target, envelope.address, author_id);
    let output = edited(answers, target, envelope, author_id)->Ok_0.output();
    lemma_edited(answers, target, envelope, author_id, pieces);
    let after = c.steps(ops)->Some_0;
    let fresh = fresh_ids(c.next_piece_id as int, after.next_piece_id as int);
    assert forall|m: int| 0 <= m < output.piece_inserts.len() implies #[trigger] output.piece_inserts[m] == row_insert(
        row_with(list_number, after.pieces, (c.next_piece_id + m) as i64),
    ) by {
        assert(fresh[m] == (c.next_piece_id + m) as i64);
    }
    // Every row that changed was found.
    let next = if insert_total(ops) > 0 {
        target.next_buffer_id
    } else {
        i64::MAX
    };
    let d = ChainState { next_buffer_id: next, ..c };
    let state = EditState { rest: OverlayRest { next_buffer_id: next, ..start.rest }, ..start };
    if insert_total(ops) == 0 {
        lemma_deletes_only(start, c, next, ops);
    } else {
        assert(d == c && state == start);
    }
    assert(is_state(state.doc, d));
    assert(edit_is_at(state, d));
    law_edit_steps(state, d, ops);
    lemma_edit_ids(state, d, ops);
    let doc = start.steps(ops).0.doc;
    assert(doc == state.steps(ops).0.doc);
    let found = doc.found_coords();
    let existing = doc.existing_ids();
    assert(output.trace.rows == found);
    let pairs = existing.map_values(|id: i64| ((doc.base)(id)->Ok_0, doc.at(id)->Ok_0));
    assert(output.piece_updates == row_changes(pairs));
    lemma_row_changes(pairs);
    let originals = coords_by_id(found);
    assert forall|k: int| 0 <= k < output.piece_updates.len() implies originals.contains_key(
        (#[trigger] output.piece_updates[k]).id,
    ) by {
        let m = choose|m: int|
            0 <= m < pairs.len() && row_change((#[trigger] pairs[m]).0, pairs[m].1) == Some(output.piece_updates[k]);
        let id = existing[m];
        assert(found[m].0 == id);
        assert(has_id(pieces, id));
        assert(has_id(after.pieces, id));
        let i = choose|i: int| 0 <= i < after.pieces.len() && (#[trigger] after.pieces[i]).id == id;
        assert(doc.at(id)->Ok_0.id == id) by {
            reveal(is_linked);
            assert(doc.at(after.pieces[i].id) == Ok::<PieceRow, crate::changelog::ChangelogError>(
                row_in(doc.list_number, after.pieces, i),
            ));
        }
        lemma_found_by_id(found, m);
    }
}

proof fn lemma_found_by_id(coords: Seq<(i64, PieceCoord)>, m: int)
    requires
        0 <= m < coords.len(),
    ensures
        coords_by_id(coords).contains_key(coords[m].0),
    decreases coords.len(),
{
    if m < coords.len() - 1 {
        assert(coords.drop_last()[m] == coords[m]);
        lemma_found_by_id(coords.drop_last(), m);
    }
}

/// New rows and changed rows may be written if and only if the pieces may become what
/// they are.
proof fn lemma_pieces_accepted(
    list_number: i64,
    c: ChainState,
    after: ChainState,
    output: OutputView,
    originals: Map<i64, PieceCoord>,
)
    requires
        list_number > 0,
        c.next_piece_id > 0,
        distinct(c.pieces),
        distinct(after.pieces),
        c.next_piece_id <= after.next_piece_id,
        forall|id: i64| #[trigger]
            has_id(after.pieces, id) <==> has_id(c.pieces, id) || c.next_piece_id <= id < after.next_piece_id,
        forall|i: int| 0 <= i < c.pieces.len() ==> (#[trigger] c.pieces[i]).id < c.next_piece_id,
        forall|id: i64| #[trigger] originals.contains_key(id) ==> originals[id] == row_with(
            list_number,
            c.pieces,
            id,
        ).coord,
        output.piece_inserts.len() == after.next_piece_id - c.next_piece_id,
        forall|m: int|
            0 <= m < output.piece_inserts.len() ==> #[trigger] output.piece_inserts[m] == row_insert(
                row_with(list_number, after.pieces, (c.next_piece_id + m) as i64),
            ),
        output.piece_updates == changed_rows(list_number, c.pieces, after.pieces),
        forall|k: int|
            0 <= k < output.piece_updates.len() ==> originals.contains_key((#[trigger] output.piece_updates[k]).id),
    ensures
        row_ids(output.piece_inserts).no_duplicates(),
        forall|k: int|
            0 <= k < output.piece_inserts.len() ==> (#[trigger] output.piece_inserts[k]).new_id >= c.next_piece_id,
        update_ids(output.piece_updates).no_duplicates(),
        forall|k: int|
            0 <= k < output.piece_updates.len() ==> (#[trigger] output.piece_updates[k]).id < c.next_piece_id,
        ({
            &&& forall|k: int|
                0 <= k < output.piece_inserts.len() ==> is_aligned((#[trigger] output.piece_inserts[k]).coord)
                    && insert_fits(output.piece_inserts[k])
            &&& forall|k: int|
                0 <= k < output.piece_updates.len() ==> update_aligned(#[trigger] output.piece_updates[k])
                    && update_keeps_start(output.piece_updates[k], originals)
        }) <==> forall|j: int|
            0 <= j < after.pieces.len() ==> may_become(c.pieces, #[trigger] after.pieces[j]),
{
    let inserts = output.piece_inserts;
    let updates = output.piece_updates;
    let before = c.pieces;
    let pieces = after.pieces;
    let wanted = |id: i64| has_id(before, id);
    let known = ids_where(wanted);
    let pair = |id: i64| (row_with(list_number, before, id), row_with(list_number, pieces, id));
    let pairs = known.map_values(pair);
    lemma_ids_below(wanted, i64::MAX + 1);
    assert(updates == row_changes(pairs));
    assert forall|m: int| 0 <= m < pairs.len() implies has_id(before, #[trigger] known[m]) && has_id(
        pieces,
        known[m],
    ) && pairs[m].0.id == known[m] && pairs[m].1.id == known[m] by {
        assert(wanted(known[m]));
        lemma_row_with_id(list_number, before, known[m]);
        lemma_row_with_id(list_number, pieces, known[m]);
    }
    assert forall|i: int, j: int| 0 <= i < j < pairs.len() implies (#[trigger] pairs[i]).1.id < (
    #[trigger] pairs[j]).1.id by {
        assert(known[i] < known[j]);
        assert(has_id(before, known[i]) && has_id(before, known[j]));
    }
    lemma_row_changes(pairs);
    // New rows.
    assert forall|m: int| 0 <= m < inserts.len() implies (#[trigger] inserts[m]).new_id == c.next_piece_id + m
        && inserts[m].list_number == list_number && has_id(pieces, inserts[m].new_id) && !has_id(
        before,
        inserts[m].new_id,
    ) by {
        let id = (c.next_piece_id + m) as i64;
        assert(has_id(pieces, id));
        lemma_row_with_id(list_number, pieces, id);
        if has_id(before, id) {
            let i = choose|i: int| 0 <= i < before.len() && (#[trigger] before[i]).id == id;
            assert(before[i].id < c.next_piece_id);
        }
    }
    assert(row_ids(inserts).no_duplicates()) by {
        assert forall|i: int, j: int|
            0 <= i < row_ids(inserts).len() && 0 <= j < row_ids(inserts).len() && i != j implies row_ids(inserts)[i]
            != row_ids(inserts)[j] by {
            assert(inserts[i].new_id != inserts[j].new_id);
        }
    }
    // Changed rows.
    assert forall|k: int| 0 <= k < updates.len() implies has_id(before, (#[trigger] updates[k]).id) && updates[k].id
        < c.next_piece_id by {
        let m = choose|m: int|
            0 <= m < pairs.len() && row_change((#[trigger] pairs[m]).0, pairs[m].1) == Some(updates[k]);
        assert(has_id(before, known[m]));
        let i = choose|i: int| 0 <= i < before.len() && (#[trigger] before[i]).id == known[m];
        assert(before[i].id < c.next_piece_id);
    }
    assert(update_ids(updates).no_duplicates()) by {
        assert forall|i: int, j: int|
            0 <= i < update_ids(updates).len() && 0 <= j < update_ids(updates).len() && i != j implies update_ids(
            updates,
        )[i] != update_ids(updates)[j] by {
            if i < j {
                assert(updates[i].id < updates[j].id);
            } else {
                assert(updates[j].id < updates[i].id);
            }
        }
    }
    let rows_fit = forall|k: int|
        0 <= k < inserts.len() ==> is_aligned((#[trigger] inserts[k]).coord) && insert_fits(inserts[k]);
    let updates_fit = forall|k: int|
        0 <= k < updates.len() ==> update_aligned(#[trigger] updates[k]) && update_keeps_start(
            updates[k],
            originals,
        );
    if rows_fit && updates_fit {
        assert forall|j: int| 0 <= j < pieces.len() implies may_become(before, #[trigger] pieces[j]) by {
            let piece = pieces[j];
            lemma_row_in_place(list_number, pieces, j);
            assert(has_id(pieces, piece.id));
            if has_id(before, piece.id) {
                let i = choose|i: int| 0 <= i < before.len() && (#[trigger] before[i]).id == piece.id;
                lemma_row_in_place(list_number, before, i);
                assert(wanted(piece.id));
                assert(known.contains(piece.id));
                let m = known.index_of(piece.id);
                assert(pairs[m] == pair(piece.id));
                if before[i].coord != piece.coord {
                    let u = row_change(pairs[m].0, pairs[m].1)->Some_0;
                    assert(updates.contains(u));
                    let k = updates.index_of(u);
                    assert(update_aligned(updates[k]) && update_keeps_start(updates[k], originals));
                }
            } else {
                let m = piece.id - c.next_piece_id;
                assert(inserts[m].coord == piece.coord);
                assert(is_aligned(inserts[m].coord) && insert_fits(inserts[m]));
            }
        }
    }
    if forall|j: int| 0 <= j < pieces.len() ==> may_become(before, #[trigger] pieces[j]) {
        assert forall|k: int| 0 <= k < inserts.len() implies is_aligned((#[trigger] inserts[k]).coord) && insert_fits(
            inserts[k],
        ) by {
            let id = inserts[k].new_id;
            let j = choose|j: int| 0 <= j < pieces.len() && (#[trigger] pieces[j]).id == id;
            lemma_row_in_place(list_number, pieces, j);
            assert(may_become(before, pieces[j]));
        }
        assert forall|k: int| 0 <= k < updates.len() implies update_aligned(#[trigger] updates[k])
            && update_keeps_start(updates[k], originals) by {
            let u = updates[k];
            let m = choose|m: int| 0 <= m < pairs.len() && row_change((#[trigger] pairs[m]).0, pairs[m].1) == Some(u);
            let id = known[m];
            assert(u.id == id);
            assert(pairs[m] == pair(id));
            let j = choose|j: int| 0 <= j < pieces.len() && (#[trigger] pieces[j]).id == id;
            lemma_row_in_place(list_number, pieces, j);
            assert(may_become(before, pieces[j]));
            let i = choose|i: int|
                0 <= i < before.len() && (#[trigger] before[i]).id == pieces[j].id && (before[i].coord
                    == pieces[j].coord || (is_aligned(pieces[j].coord) && before[i].coord.buffer_id
                    == pieces[j].coord.buffer_id && before[i].coord.start_byte == pieces[j].coord.start_byte));
            lemma_row_in_place(list_number, before, i);
            assert(originals.contains_key(u.id));
        }
    }
}

/// The rows that an edit came to, with the ranges that they had.
pub open spec fn rows_met(answers: Answers, checks: EditChecks, entry: ChangelogEntry) -> Seq<(i64, PieceCoord)> {
    let envelope = decode_message(entry.message@)->Ok_0;
    let target = edit_target(answers, checks, envelope)->Ok_0;
    edited(answers, target, envelope, entry.uid as i64)->Ok_0.output().trace.rows
}

/// An edit of a well-formed document that its author may edit is accepted if and only
/// if the chain takes its operations, all rows that it came to lie in buffers of the
/// document, and the pieces may become what the operations make of them.
pub proof fn law_edit_accepted(
    answers: Answers,
    checks: EditChecks,
    entry: ChangelogEntry,
    tree: Tree,
    pieces: Seq<Piece>,
)
    requires
        reads_tree(answers, tree),
        decode_message(entry.message@) is Ok,
        edit_target(answers, checks, decode_message(entry.message@)->Ok_0) is Ok,
        ({
            let envelope = decode_message(entry.message@)->Ok_0;
            let target = edit_target(answers, checks, envelope)->Ok_0;
            &&& well_formed(answers, target, envelope.ops, pieces)
            &&& chain_of(target, pieces).has_room_for(envelope.ops.len() as int)
        }),
    ensures
        ({
            let envelope = decode_message(entry.message@)->Ok_0;
            let target = edit_target(answers, checks, envelope)->Ok_0;
            let met = rows_met(answers, checks, entry);
            edit_operation(answers, checks, entry) is Ok <==> {
                &&& chain_of(target, pieces).steps(envelope.ops) matches Some(after)
                &&& forall|k: int|
                    0 <= k < met.len() ==> lies_in_own_buffer(tree, envelope.address, (#[trigger] met[k]).1)
                &&& forall|j: int|
                    0 <= j < after.pieces.len() ==> may_become(pieces, #[trigger] after.pieces[j])
            }
        }),
{
    let envelope = decode_message(entry.message@)->Ok_0;
    let target = edit_target(answers, checks, envelope)->Ok_0;
    let author_id = entry.uid as i64;
    let c = chain_of(target, pieces);
    law_edit_message(entry.message@);
    law_edit_permitted(answers, checks, envelope, tree);
    lemma_insert_total(envelope.ops);
    lemma_goes_through(answers, target, envelope, author_id, pieces);
    if edited(answers, target, envelope, author_id) is Ok {
        let output = edited(answers, target, envelope, author_id)->Ok_0.output();
        let originals = coords_by_id(output.trace.rows);
        let after = c.steps(envelope.ops)->Some_0;
        let start = start_of(answers, target, envelope.address, author_id);
        lemma_edited(answers, target, envelope, author_id, pieces);
        lemma_output(answers, target, envelope, author_id, pieces);
        law_buffers_checked(answers, envelope.address, output.trace.rows, tree);
        assert(c.next_piece_id > 0 && forall|i: int|
            0 <= i < pieces.len() ==> (#[trigger] pieces[i]).id < c.next_piece_id) by {
            reveal(is_linked);
            let doc = edit_doc(answers, target.list_number, target.head_id, target.tail_id, target.next_piece_id);
            assert forall|i: int| 0 <= i < pieces.len() implies (#[trigger] pieces[i]).id < c.next_piece_id by {
                assert(doc.at(pieces[i].id) is Ok);
            }
        }
        lemma_pieces_accepted(target.list_number, c, after, output, originals);
        lemma_has_added(start, envelope.ops);
        lemma_inserts_before(envelope.ops, envelope.ops, envelope.ops.len() as int);
        let buffers = output.buffer_inserts;
        assert forall|k: int| 0 <= k < buffers.len() implies (#[trigger] buffers[k]).new_id > 0 by {
            assert(buffers[k].new_id == start.rest.next_buffer_id + k);
        }
        assert(buffer_ids(buffers).no_duplicates()) by {
            assert forall|i: int, j: int|
                0 <= i < buffer_ids(buffers).len() && 0 <= j < buffer_ids(buffers).len() && i != j implies buffer_ids(
                buffers,
            )[i] != buffer_ids(buffers)[j] by {
                assert(buffers[i].new_id == start.rest.next_buffer_id + i);
                assert(buffers[j].new_id == start.rest.next_buffer_id + j);
            }
        }
        lemma_writes_accepted(envelope.address, target.list_number, c.next_piece_id, output, originals);
        assert(rows_met(answers, checks, entry) == output.trace.rows);
        assert(edit_operation(answers, checks, entry) is Ok <==> buffers_checked(
            answers,
            envelope.address,
            output.trace.rows,
        ) is Ok && checked_writes(envelope.address, target.list_number, output, originals) is Ok);
        assert(checked_writes(envelope.address, target.list_number, output, originals) is Ok <==> forall|j: int|
            0 <= j < after.pieces.len() ==> may_become(pieces, #[trigger] after.pieces[j]));
    }
}

/// So many different buffers do the rows lie in.
pub open spec fn is_buffer_count(rows: Seq<(i64, PieceCoord)>, count: usize) -> bool {
    exists|ids: Seq<i64>|
        #![trigger ids.no_duplicates()]
        ids.no_duplicates() && count == ids.len() as usize && forall|id: i64| #[trigger]
            ids.contains(id) <==> exists|i: int| 0 <= i < rows.len() && (#[trigger] rows[i]).1.buffer_id == id
}

/// So many different rows have changed.
pub open spec fn is_change_count(list_number: i64, before: Seq<Piece>, after: Seq<Piece>, count: usize) -> bool {
    exists|ids: Seq<i64>|
        #![trigger ids.no_duplicates()]
        ids.no_duplicates() && count == ids.len() as usize && forall|id: i64| #[trigger]
            ids.contains(id) <==> is_changed(list_number, before, after, id)
}

/// What is counted of an accepted edit: its writes, the buffers and the rows that it
/// adds, the rows that it changes, the rows that it came to, and the buffers that
/// these lie in, each once.
pub proof fn law_edit_counts(
    answers: Answers,
    checks: EditChecks,
    entry: ChangelogEntry,
    tree: Tree,
    pieces: Seq<Piece>,
)
    requires
        reads_tree(answers, tree),
        edit_operation(answers, checks, entry) is Ok,
        ({
            let envelope = decode_message(entry.message@)->Ok_0;
            let target = edit_target(answers, checks, envelope)->Ok_0;
            &&& well_formed(answers, target, envelope.ops, pieces)
            &&& chain_of(target, pieces).has_room_for(envelope.ops.len() as int)
        }),
    ensures
        ({
            let envelope = decode_message(entry.message@)->Ok_0;
            let target = edit_target(answers, checks, envelope)->Ok_0;
            let (writes, counts) = edit_operation(answers, checks, entry)->Ok_0;
            let after = chain_of(target, pieces).steps(envelope.ops)->Some_0;
            let met = rows_met(answers, checks, entry);
            &&& counts.write_ops == writes.len() as usize
            &&& counts.inserted_buffer_rows == inserts_before(envelope.ops, envelope.ops.len() as int) as usize
            &&& counts.inserted_piece_rows == (after.next_piece_id - target.next_piece_id) as usize
            &&& counts.piece_rows_read == met.len() as usize
            &&& is_buffer_count(met, counts.buffer_rows_read)
            &&& is_change_count(target.list_number, pieces, after.pieces, counts.updated_piece_rows)
        }),
{
    let envelope = decode_message(entry.message@)->Ok_0;
    let target = edit_target(answers, checks, envelope)->Ok_0;
    let author_id = entry.uid as i64;
    let c = chain_of(target, pieces);
    let output = edited(answers, target, envelope, author_id)->Ok_0.output();
    let start = start_of(answers, target, envelope.address, author_id);
    lemma_edited(answers, target, envelope, author_id, pieces);
    lemma_output(answers, target, envelope, author_id, pieces);
    lemma_has_added(start, envelope.ops);
    law_buffers_checked(answers, envelope.address, output.trace.rows, tree);
    let after = c.steps(envelope.ops)->Some_0;
    lemma_changed_ids(target.list_number, pieces, after.pieces);
    let (writes, counts) = edit_operation(answers, checks, entry)->Ok_0;
    let ids = update_ids(output.piece_updates);
    assert(ids.no_duplicates());
    assert(is_change_count(target.list_number, pieces, after.pieces, counts.updated_piece_rows));
    assert(rows_met(answers, checks, entry) == output.trace.rows);
    assert(is_buffer_count(output.trace.rows, counts.buffer_rows_read));
}

/// A row that was there has other neighbours or another range.
pub open spec fn is_changed(list_number: i64, before: Seq<Piece>, after: Seq<Piece>, id: i64) -> bool {
    exists|i: int, j: int|
        #![trigger before[i], after[j]]
        0 <= i < before.len() && 0 <= j < after.len() && before[i].id == id && after[j].id == id && row_in(
            list_number,
            before,
            i,
        ) != row_in(list_number, after, j)
}

proof fn lemma_changed_ids(list_number: i64, before: Seq<Piece>, after: Seq<Piece>)
    requires
        distinct(before),
        distinct(after),
        forall|id: i64| #[trigger] has_id(before, id) ==> has_id(after, id),
    ensures
        ({
            let ids = update_ids(changed_rows(list_number, before, after));
            &&& ids.no_duplicates()
            &&& forall|id: i64| #[trigger] ids.contains(id) <==> is_changed(list_number, before, after, id)
        }),
{
    let updates = changed_rows(list_number, before, after);
    let ids = update_ids(updates);
    let wanted = |id: i64| has_id(before, id);
    let known = ids_where(wanted);
    let pair = |id: i64| (row_with(list_number, before, id), row_with(list_number, after, id));
    let pairs = known.map_values(pair);
    lemma_ids_below(wanted, i64::MAX + 1);
    assert(updates == row_changes(pairs));
    assert forall|m: int| 0 <= m < pairs.len() implies has_id(before, #[trigger] known[m]) && pairs[m].0.id
        == known[m] && pairs[m].1.id == known[m] by {
        assert(wanted(known[m]));
        assert(has_id(after, known[m]));
        lemma_row_with_id(list_number, before, known[m]);
        lemma_row_with_id(list_number, after, known[m]);
    }
    assert forall|i: int, j: int| 0 <= i < j < pairs.len() implies (#[trigger] pairs[i]).1.id < (
    #[trigger] pairs[j]).1.id by {
        assert(known[i] < known[j]);
        assert(has_id(before, known[i]) && has_id(before, known[j]));
    }
    lemma_row_changes(pairs);
    assert forall|i: int, j: int| 0 <= i < ids.len() && 0 <= j < ids.len() && i != j implies ids[i] != ids[j] by {
        if i < j {
            assert(updates[i].id < updates[j].id);
        } else {
            assert(updates[j].id < updates[i].id);
        }
    }
    assert forall|id: i64| #[trigger] ids.contains(id) <==> is_changed(list_number, before, after, id) by {
        if ids.contains(id) {
            let k = ids.index_of(id);
            let m = choose|m: int|
                0 <= m < pairs.len() && row_change((#[trigger] pairs[m]).0, pairs[m].1) == Some(updates[k]);
            assert(known[m] == id && pairs[m] == pair(id));
            assert(has_id(before, id) && has_id(after, id));
            let i = choose|i: int| 0 <= i < before.len() && (#[trigger] before[i]).id == id;
            let j = choose|j: int| 0 <= j < after.len() && (#[trigger] after[j]).id == id;
            lemma_row_in_place(list_number, before, i);
            lemma_row_in_place(list_number, after, j);
        }
        if is_changed(list_number, before, after, id) {
            let (i, j) = choose|i: int, j: int|
                #![trigger before[i], after[j]]
                0 <= i < before.len() && 0 <= j < after.len() && before[i].id == id && after[j].id == id && row_in(
                    list_number,
                    before,
                    i,
                ) != row_in(list_number, after, j);
            lemma_row_in_place(list_number, before, i);
            lemma_row_in_place(list_number, after, j);
            assert(wanted(id));
            assert(known.contains(id));
            let m = known.index_of(id);
            assert(pairs[m] == pair(id));
            let u = row_change(pairs[m].0, pairs[m].1)->Some_0;
            assert(updates.contains(u));
            let k = updates.index_of(u);
            assert(ids[k] == id);
        }
    }
}

} // verus!
