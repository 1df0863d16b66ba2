//! Which envelopes are read, and what is read from them.

use vstd::prelude::*;

use crate::changelog::{ChangelogError, MessageView};
use crate::faults::OpType;
use crate::piece_text::{
    bodies_accepted, body_fault, body_total, ciphertext_total, decode_message, identifier_fault,
    insert_total, inserted_manifests, item_fault, item_of, items_fault, AddressView, EnvelopeView,
    InsertedBufferManifest, PieceTextEditItemManifest, ValidatedPieceTextInsertedBody,
};
use crate::piece_text_cleanup::{
    ascending_fault, cleanup_buffers_in_message, cleanup_pieces_in_message, first_run_fault,
    law_buffer_removals_ascend, law_cleanup_runs, removals_fault, removed_rows, runs_fault,
    CleanupBuffersView, CleanupPiecesView,
};
use crate::storage::KeyView;
use crate::wire::{
    cleanup_buffers_bytes, cleanup_buffers_parts, cleanup_pieces_bytes, cleanup_pieces_parts, edit_bytes,
    edit_parts, WireItem,
};

verus! {

// ---------- addresses ----------

/// A letter of the Latin alphabet, or an underscore.
pub open spec fn starts_name(c: char) -> bool {
    ('a' <= c && c <= 'z') || ('A' <= c && c <= 'Z') || c == '_'
}

/// A name of a table or a column: a letter or an underscore, then letters, digits
/// and underscores.
pub open spec fn is_name(name: Seq<char>) -> bool {
    &&& name.len() > 0
    &&& starts_name(name[0])
    &&& forall|i: int| 0 < i < name.len() ==> starts_name(#[trigger] name[i]) || ('0' <= name[i] && name[i] <= '9')
}

/// An address is accepted if and only if its table and its column are names and its
/// row is positive.
pub proof fn law_address_accepted(address: AddressView)
    ensures
        address.fault() is None <==> is_name(address.table) && is_name(address.column) && address.row_id > 0,
{
    assert forall|name: Seq<char>|
        is_name(name) <==> #[trigger] identifier_fault(crate::faults::IdentifierKind::Table, name) is None by {}
    assert forall|name: Seq<char>|
        is_name(name) <==> #[trigger] identifier_fault(crate::faults::IdentifierKind::Column, name) is None by {}
}

// ---------- edits ----------

/// A place in a document: its start, or between two scalars of a buffer.
pub open spec fn is_place(place: (i64, u32)) -> bool {
    (place.0 == 0 && place.1 == 0) || (place.0 > 0 && place.1 % 4 == 0)
}

/// A step of an edit that may be made: of an insert, the place, the length of what
/// is inserted, which is of whole scalars, and that of its encryption; of a
/// deletion, both places.
pub open spec fn is_step(item: WireItem) -> bool {
    match item {
        Ok((at, (len_bytes, ciphertext_len, _))) => {
            &&& is_place(at)
            &&& 0 < len_bytes <= 4194304
            &&& len_bytes % 4 == 0
            &&& 0 < ciphertext_len <= 262144
        },
        Err((start, end)) => is_place(start) && is_place(end),
    }
}

/// How many of the steps insert something.
pub open spec fn insert_steps(items: Seq<WireItem>) -> nat {
    items.filter(|item: WireItem| item is Ok).len()
}

/// The encrypted bytes that the steps insert.
pub open spec fn encrypted_bytes(items: Seq<WireItem>) -> int {
    items.fold_left(
        0int,
        |sum: int, item: WireItem|
            match item {
                Ok((_, (_, ciphertext_len, _))) => sum + ciphertext_len,
                Err(_) => sum,
            },
    )
}

/// The steps of an edit that may be made.
pub open spec fn are_steps(items: Seq<WireItem>) -> bool {
    &&& 0 < items.len() <= 256
    &&& insert_steps(items) <= 16
    &&& encrypted_bytes(items) <= 8388608
    &&& forall|i: int| 0 <= i < items.len() ==> is_step(#[trigger] items[i])
}

/// The step is read from the item field by field.
pub open spec fn is_step_of(item: WireItem, op: PieceTextEditItemManifest) -> bool {
    match item {
        Ok((place, (len, ciphertext, hash))) => op matches PieceTextEditItemManifest::Insert { at, inserted }
            && at.buffer_id == place.0 && at.byte_pos == place.1 && inserted.len_bytes == len
            && inserted.ciphertext_len == ciphertext && inserted.ciphertext_value_hash == hash,
        Err((from, to)) => op matches PieceTextEditItemManifest::Delete { start, end } && start.buffer_id == from.0
            && start.byte_pos == from.1 && end.buffer_id == to.0 && end.byte_pos == to.1,
    }
}

proof fn lemma_step_accepted(item: WireItem)
    ensures
        item_fault(item_of(item)) is None <==> is_step(item),
        is_step_of(item, item_of(item)),
{
}

proof fn lemma_steps(items: Seq<WireItem>)
    ensures
        ({
            let ops = items.map_values(|w: WireItem| item_of(w));
            &&& ops.len() == items.len()
            &&& insert_total(ops) == insert_steps(items)
            &&& ciphertext_total(ops) == encrypted_bytes(items)
            &&& items_fault(ops) is None <==> forall|i: int| 0 <= i < items.len() ==> is_step(#[trigger] items[i])
        }),
    decreases items.len(),
{
    reveal(Seq::filter);
    let ops = items.map_values(|w: WireItem| item_of(w));
    if items.len() > 0 {
        let rest = items.drop_last();
        lemma_steps(rest);
        assert(ops.drop_last() =~= rest.map_values(|w: WireItem| item_of(w)));
        let last = items.last();
        assert(items[items.len() - 1] == last);
        assert(ops.last() == item_of(last));
        lemma_step_accepted(last);
        if items_fault(ops.drop_last()) is None {
            assert forall|i: int| 0 <= i < rest.len() implies is_step(#[trigger] items[i]) by {
                assert(rest[i] == items[i]);
            }
        } else {
            let i = choose|i: int| 0 <= i < rest.len() && !is_step(#[trigger] rest[i]);
            assert(items[i] == rest[i]);
        }
    }
}

/// Which messages are read as edits, and as what. The message is an edit at the root
/// with one entry; the entry's value is no longer than an envelope may be, and is
/// what its parts are written as; the parts are of the first version, name a cell
/// and have steps that may be made; and the entry's key is made of the cell and the
/// id of the edit. The envelope read has the parts as they are.
pub proof fn law_edit_message(message: MessageView)
    ensures
        decode_message(message) is Ok <==> {
            let bytes = message.entries[0].value;
            &&& message.op_type == OpType::PieceTextEdit
            &&& message.tree_path == seq![47u8]
            &&& message.entries.len() == 1
            &&& bytes.len() <= 65536
            &&& edit_parts(bytes) matches Ok(((version, op_id, (table, row_id, column), items), left))
            &&& left == 0
            &&& edit_bytes((version, op_id, (table, row_id, column), items)) == bytes
            &&& version == 1
            &&& is_name(table)
            &&& is_name(column)
            &&& row_id > 0
            &&& are_steps(items)
            &&& message.entries[0].key == (KeyView::PieceTextEdit {
                address: AddressView { table, row_id, column },
                op_id,
            })
        },
        decode_message(message) matches Ok(envelope) ==> {
            let (version, op_id, (table, row_id, column), items) = edit_parts(message.entries[0].value)->Ok_0.0;
            &&& envelope.version == version
            &&& envelope.op_id == op_id
            &&& envelope.address.table == table
            &&& envelope.address.row_id == row_id
            &&& envelope.address.column == column
            &&& envelope.ops.len() == items.len()
            &&& forall|i: int| 0 <= i < items.len() ==> is_step_of(items[i], #[trigger] envelope.ops[i])
        },
{
    let bytes = message.entries[0].value;
    if let Ok((wire, left)) = edit_parts(bytes) {
        let envelope = EnvelopeView::of_wire(wire);
        let items = wire.3;
        lemma_steps(items);
        law_address_accepted(envelope.address);
        assert(envelope.wire().3 =~= items) by {
            assert forall|i: int| 0 <= i < items.len() implies #[trigger] envelope.wire().3[i] == items[i] by {
                assert(envelope.ops[i] == item_of(items[i]));
            }
        }
        assert(envelope.wire() == wire);
        assert forall|i: int| 0 <= i < items.len() implies is_step_of(items[i], #[trigger] envelope.ops[i]) by {
            lemma_step_accepted(items[i]);
        }
        assert(envelope.fault(bytes.len() as int) is None <==> {
            &&& wire.0 == 1
            &&& is_name(wire.2.0)
            &&& is_name(wire.2.2)
            &&& wire.2.1 > 0
            &&& are_steps(items)
            &&& bytes.len() <= 65536
        });
    }
}

/// The message that carries an edit is of its kind, at the root, and has one entry:
/// the key made of the cell and the id of the edit, and the value that its parts are
/// written as, of which each step is one, field by field. No other key is that of the
/// edit.
pub proof fn law_edit_message_written(envelope: EnvelopeView)
    ensures
        ({
            let message = envelope.message();
            let AddressView { table, row_id, column } = envelope.address;
            let key = KeyView::PieceTextEdit { address: AddressView { table, row_id, column }, op_id: envelope.op_id };
            &&& message.op_type == OpType::PieceTextEdit
            &&& message.tree_path == seq![47u8]
            &&& message.entries.len() == 1
            &&& message.entries[0].key == key
            &&& exists|items: Seq<WireItem>|
                #![trigger are_items_of(items, envelope.ops)]
                are_items_of(items, envelope.ops) && message.entries[0].value == edit_bytes(
                    (envelope.version, envelope.op_id, (table, row_id, column), items),
                )
            &&& forall|other: KeyView| #[trigger] envelope.key_fault(other) is None <==> other == key
        }),
{
    let items = envelope.wire().3;
    assert forall|i: int| 0 <= i < items.len() implies is_step_of(items[i], #[trigger] envelope.ops[i]) by {
        lemma_step_accepted(items[i]);
    }
    assert(are_items_of(items, envelope.ops));
}

/// The items are the steps, one each and field by field.
pub open spec fn are_items_of(items: Seq<WireItem>, ops: Seq<PieceTextEditItemManifest>) -> bool {
    items.len() == ops.len() && forall|i: int| 0 <= i < items.len() ==> is_step_of(items[i], #[trigger] ops[i])
}

// ---------- cleanups ----------

/// No row is named twice in the runs.
pub open spec fn named_once(runs: Seq<Seq<i64>>) -> bool {
    forall|i: int, j: int, k: int, l: int|
        #![trigger runs[i][j], runs[k][l]]
        0 <= i < runs.len() && 0 <= j < runs[i].len() && 0 <= k < runs.len() && 0 <= l < runs[k].len()
            && runs[i][j] == runs[k][l] ==> i == k && j == l
}

/// The rows of the runs.
pub open spec fn rows_named(runs: Seq<Seq<i64>>) -> int {
    runs.fold_left(0int, |sum: int, run: Seq<i64>| sum + run.len())
}

/// Runs that may be cleaned up: some but not too many, none empty, in the order of
/// their first rows, with positive rows, none of them twice, and not too many.
pub open spec fn are_runs(runs: Seq<Seq<i64>>) -> bool {
    &&& 0 < runs.len() <= 64
    &&& rows_named(runs) <= 256
    &&& forall|i: int| 0 <= i < runs.len() ==> (#[trigger] runs[i]).len() > 0
    &&& forall|i: int, j: int| 0 <= i < runs.len() && 0 <= j < runs[i].len() ==> #[trigger] runs[i][j] > 0
    &&& forall|i: int, j: int| 0 <= i < j < runs.len() ==> (#[trigger] runs[i])[0] < (#[trigger] runs[j])[0]
    &&& named_once(runs)
}

proof fn lemma_rows_named(runs: Seq<Seq<i64>>)
    ensures
        removed_rows(runs).len() == rows_named(runs),
    decreases runs.len(),
{
    if runs.len() > 0 {
        lemma_rows_named(runs.drop_last());
    }
}

proof fn lemma_removals(seen: Seq<i64>, run: Seq<i64>)
    requires
        forall|j: int| 0 <= j < run.len() ==> #[trigger] run[j] > 0,
        forall|j: int| 0 <= j < run.len() ==> !seen.contains(#[trigger] run[j]),
        run.no_duplicates(),
    ensures
        removals_fault(seen, run) is None,
    decreases run.len(),
{
    if run.len() > 0 {
        let rest = run.drop_last();
        lemma_removals(seen, rest);
        let last = run.last();
        assert(run[run.len() - 1] == last);
        assert(!(seen + rest).contains(last)) by {
            if (seen + rest).contains(last) {
                let k = (seen + rest).index_of(last);
                if k < seen.len() {
                    assert(seen[k] == last);
                } else {
                    assert(run[k - seen.len()] == last);
                }
            }
        }
    }
}

pub proof fn lemma_removed_in(runs: Seq<Seq<i64>>, id: i64)
    ensures
        removed_rows(runs).contains(id) <==> exists|i: int, j: int|
            0 <= i < runs.len() && 0 <= j < runs[i].len() && #[trigger] runs[i][j] == id,
    decreases runs.len(),
{
    if runs.len() > 0 {
        let rest = runs.drop_last();
        let last = runs.last();
        lemma_removed_in(rest, id);
        let before = removed_rows(rest);
        let all = before + last;
        if before.contains(id) {
            let (i, j) = choose|i: int, j: int|
                0 <= i < rest.len() && 0 <= j < rest[i].len() && #[trigger] rest[i][j] == id;
            assert(runs[i][j] == id);
            assert(all[before.index_of(id)] == id);
        }
        if last.contains(id) {
            let j = last.index_of(id);
            assert(runs[runs.len() - 1][j] == id);
            assert(all[before.len() + j] == id);
        }
        if all.contains(id) && !before.contains(id) {
            let k = all.index_of(id);
            if k < before.len() {
                assert(before[k] == id);
            }
            assert(last[k - before.len()] == id);
        }
        if exists|i: int, j: int| 0 <= i < runs.len() && 0 <= j < runs[i].len() && #[trigger] runs[i][j] == id {
            let (i, j) = choose|i: int, j: int|
                0 <= i < runs.len() && 0 <= j < runs[i].len() && #[trigger] runs[i][j] == id;
            if i < rest.len() {
                assert(rest[i][j] == id);
            } else {
                assert(last[j] == id);
            }
        }
    }
}

proof fn lemma_runs_pass(runs: Seq<Seq<i64>>)
    requires
        forall|i: int| 0 <= i < runs.len() ==> (#[trigger] runs[i]).len() > 0,
        forall|i: int, j: int| 0 <= i < runs.len() && 0 <= j < runs[i].len() ==> #[trigger] runs[i][j] > 0,
        forall|i: int, j: int| 0 <= i < j < runs.len() ==> (#[trigger] runs[i])[0] < (#[trigger] runs[j])[0],
        named_once(runs),
    ensures
        first_run_fault(runs) is None,
    decreases runs.len(),
{
    if runs.len() > 0 {
        let rest = runs.drop_last();
        let last = runs.last();
        let n = runs.len() - 1;
        assert(runs[n] == last);
        assert forall|i: int| 0 <= i < rest.len() implies (#[trigger] rest[i]).len() > 0 by {
            assert(rest[i] == runs[i]);
        }
        assert forall|i: int, j: int| 0 <= i < rest.len() && 0 <= j < rest[i].len() implies #[trigger] rest[i][j]
            > 0 by {
            assert(rest[i][j] == runs[i][j]);
        }
        assert forall|i: int, j: int| 0 <= i < j < rest.len() implies (#[trigger] rest[i])[0] < (
        #[trigger] rest[j])[0] by {
            assert(rest[i] == runs[i] && rest[j] == runs[j]);
        }
        assert(named_once(rest)) by {
            assert forall|i: int, j: int, k: int, l: int|
                #![trigger rest[i][j], rest[k][l]]
                0 <= i < rest.len() && 0 <= j < rest[i].len() && 0 <= k < rest.len() && 0 <= l < rest[k].len()
                    && rest[i][j] == rest[k][l] implies i == k && j == l by {
                assert(runs[i][j] == runs[k][l]);
            }
        }
        lemma_runs_pass(rest);
        assert forall|j: int| 0 <= j < last.len() implies #[trigger] last[j] > 0 by {
            assert(runs[n][j] > 0);
        }
        assert forall|j: int| 0 <= j < last.len() implies !removed_rows(rest).contains(#[trigger] last[j]) by {
            lemma_removed_in(rest, last[j]);
            if removed_rows(rest).contains(last[j]) {
                let (i, k) = choose|i: int, k: int|
                    0 <= i < rest.len() && 0 <= k < rest[i].len() && #[trigger] rest[i][k] == last[j];
                assert(runs[i][k] == runs[n][j]);
            }
        }
        assert(last.no_duplicates()) by {
            assert forall|a: int, b: int| 0 <= a < last.len() && 0 <= b < last.len() && a != b implies last[a]
                != last[b] by {
                assert(runs[n][a] != runs[n][b]);
            }
        }
        lemma_removals(removed_rows(rest), last);
        if rest.len() > 0 {
            assert(rest.last() == runs[n - 1]);
            assert(runs[n - 1][0] < runs[n][0]);
        }
    }
}

proof fn lemma_named_once(runs: Seq<Seq<i64>>)
    requires
        removed_rows(runs).no_duplicates(),
    ensures
        named_once(runs),
    decreases runs.len(),
{
    if runs.len() > 0 {
        let rest = runs.drop_last();
        let last = runs.last();
        let before = removed_rows(rest);
        let all = before + last;
        assert(all == removed_rows(runs));
        assert(before.no_duplicates()) by {
            assert forall|a: int, b: int| 0 <= a < before.len() && 0 <= b < before.len() && a != b implies before[a]
                != before[b] by {
                assert(all[a] == before[a] && all[b] == before[b]);
            }
        }
        lemma_named_once(rest);
        let n = runs.len() - 1;
        assert forall|i: int, j: int, l: int|
            0 <= i < n && 0 <= j < runs[i].len() && 0 <= l < last.len() implies #[trigger] runs[i][j]
            != #[trigger] last[l] by {
            assert(rest[i][j] == runs[i][j]);
            lemma_removed_in(rest, runs[i][j]);
            let k = before.index_of(runs[i][j]);
            assert(all[k] != all[before.len() + l]);
        }
        assert forall|i: int, j: int, k: int, l: int|
            #![trigger runs[i][j], runs[k][l]]
            0 <= i < runs.len() && 0 <= j < runs[i].len() && 0 <= k < runs.len() && 0 <= l < runs[k].len()
                && runs[i][j] == runs[k][l] implies i == k && j == l by {
            if i < n && k < n {
                assert(rest[i][j] == rest[k][l]);
            } else if i < n {
                assert(runs[i][j] != last[l]);
            } else if k < n {
                assert(runs[k][l] != last[j]);
            } else if j != l {
                assert(all[before.len() + j] != all[before.len() + l]);
            }
        }
    }
}

/// Runs are accepted if and only if they may be cleaned up.
pub proof fn law_runs_accepted(runs: Seq<Seq<i64>>)
    ensures
        runs_fault(runs) is None <==> are_runs(runs),
{
    lemma_rows_named(runs);
    if runs_fault(runs) is None {
        law_cleanup_runs(runs);
        lemma_named_once(runs);
    }
    if are_runs(runs) {
        lemma_runs_pass(runs);
    }
}

/// Which messages are read as cleanups of rows, and as what: those at the root with
/// one entry, whose value is what its parts are written as, of the first version,
/// for a cell, a list and a change, with runs that may be cleaned up, under the key
/// that is made of the cell and the change.
pub proof fn law_cleanup_pieces_message(message: MessageView)
    ensures
        cleanup_pieces_in_message(message) is Ok <==> {
            let bytes = message.entries[0].value;
            &&& message.op_type == OpType::PieceTextCleanupPieces
            &&& message.tree_path == seq![47u8]
            &&& message.entries.len() == 1
            &&& cleanup_pieces_parts(bytes) matches Ok(
                ((version, (table, row_id, column), list_number, op_id, runs), left),
            )
            &&& left == 0
            &&& cleanup_pieces_bytes((version, (table, row_id, column), list_number, op_id, runs)) == bytes
            &&& version == 1
            &&& is_name(table)
            &&& is_name(column)
            &&& row_id > 0
            &&& list_number > 0
            &&& op_id > 0
            &&& are_runs(runs)
            &&& message.entries[0].key == (KeyView::PieceTextCleanupPieces {
                address: AddressView { table, row_id, column },
                op_id,
            })
        },
        cleanup_pieces_in_message(message) matches Ok(envelope) ==> {
            let (version, (table, row_id, column), list_number, op_id, runs) = cleanup_pieces_parts(
                message.entries[0].value,
            )->Ok_0.0;
            &&& envelope.version == version
            &&& envelope.address == (AddressView { table, row_id, column })
            &&& envelope.list_number == list_number
            &&& envelope.op_id == op_id
            &&& envelope.runs == runs
        },
{
    let bytes = message.entries[0].value;
    if let Ok((wire, left)) = cleanup_pieces_parts(bytes) {
        let envelope = CleanupPiecesView::of_wire(wire);
        law_address_accepted(envelope.address);
        law_runs_accepted(wire.4);
        assert(envelope.wire() == wire);
    }
}

/// The message that carries a cleanup of rows is of its kind, at the root, and has one
/// entry: the key made of the cell and the change, and the value that its parts are
/// written as. No other key is that of the cleanup.
pub proof fn law_cleanup_pieces_message_written(envelope: CleanupPiecesView)
    ensures
        ({
            let message = envelope.message();
            let AddressView { table, row_id, column } = envelope.address;
            let key = KeyView::PieceTextCleanupPieces {
                address: AddressView { table, row_id, column },
                op_id: envelope.op_id,
            };
            &&& message.op_type == OpType::PieceTextCleanupPieces
            &&& message.tree_path == seq![47u8]
            &&& message.entries.len() == 1
            &&& message.entries[0].key == key
            &&& message.entries[0].value == cleanup_pieces_bytes(
                (envelope.version, (table, row_id, column), envelope.list_number, envelope.op_id, envelope.runs),
            )
            &&& forall|other: KeyView| #[trigger] envelope.key_fault(other) is None <==> other == key
        }),
{
}

/// The message that carries a cleanup of buffers is of its kind, at the root, and has
/// one entry: the key made of the cell and the change, and the value that its parts
/// are written as. No other key is that of the cleanup.
pub proof fn law_cleanup_buffers_message_written(envelope: CleanupBuffersView)
    ensures
        ({
            let message = envelope.message();
            let AddressView { table, row_id, column } = envelope.address;
            let key = KeyView::PieceTextCleanupBuffers {
                address: AddressView { table, row_id, column },
                op_id: envelope.op_id,
            };
            &&& message.op_type == OpType::PieceTextCleanupBuffers
            &&& message.tree_path == seq![47u8]
            &&& message.entries.len() == 1
            &&& message.entries[0].key == key
            &&& message.entries[0].value == cleanup_buffers_bytes(
                (envelope.version, (table, row_id, column), envelope.op_id, envelope.buffer_removals),
            )
            &&& forall|other: KeyView| #[trigger] envelope.key_fault(other) is None <==> other == key
        }),
{
}

/// Positive ids, each above the one before it.
pub open spec fn ascend_from_one(ids: Seq<i64>) -> bool {
    &&& forall|i: int| 0 <= i < ids.len() ==> #[trigger] ids[i] > 0
    &&& forall|i: int, j: int| 0 <= i < j < ids.len() ==> #[trigger] ids[i] < #[trigger] ids[j]
}

proof fn lemma_ids_pass(ids: Seq<i64>)
    requires
        ascend_from_one(ids),
    ensures
        ascending_fault(ids) is None,
    decreases ids.len(),
{
    if ids.len() > 0 {
        let rest = ids.drop_last();
        assert forall|i: int| 0 <= i < rest.len() implies #[trigger] rest[i] > 0 by {
            assert(rest[i] == ids[i]);
        }
        assert forall|i: int, j: int| 0 <= i < j < rest.len() implies #[trigger] rest[i] < #[trigger] rest[j] by {
            assert(ids[i] < ids[j]);
        }
        lemma_ids_pass(rest);
        assert(ids[ids.len() - 1] > 0);
        if ids.len() > 1 {
            assert(ids[ids.len() - 2] < ids[ids.len() - 1]);
        }
    }
}

/// Which messages are read as cleanups of buffers, and as what: those at the root
/// with one entry, whose value is what its parts are written as, of the first
/// version, for a cell and a change, with some but not too many buffers in order,
/// under the key that is made of the cell and the change.
pub proof fn law_cleanup_buffers_message(message: MessageView)
    ensures
        cleanup_buffers_in_message(message) is Ok <==> {
            let bytes = message.entries[0].value;
            &&& message.op_type == OpType::PieceTextCleanupBuffers
            &&& message.tree_path == seq![47u8]
            &&& message.entries.len() == 1
            &&& cleanup_buffers_parts(bytes) matches Ok(((version, (table, row_id, column), op_id, ids), left))
            &&& left == 0
            &&& cleanup_buffers_bytes((version, (table, row_id, column), op_id, ids)) == bytes
            &&& version == 1
            &&& is_name(table)
            &&& is_name(column)
            &&& row_id > 0
            &&& op_id > 0
            &&& 0 < ids.len() <= 64
            &&& ascend_from_one(ids)
            &&& message.entries[0].key == (KeyView::PieceTextCleanupBuffers {
                address: AddressView { table, row_id, column },
                op_id,
            })
        },
        cleanup_buffers_in_message(message) matches Ok(envelope) ==> {
            let (version, (table, row_id, column), op_id, ids) = cleanup_buffers_parts(
                message.entries[0].value,
            )->Ok_0.0;
            &&& envelope.version == version
            &&& envelope.address == (AddressView { table, row_id, column })
            &&& envelope.op_id == op_id
            &&& envelope.buffer_removals == ids
        },
{
    let bytes = message.entries[0].value;
    if let Ok((wire, left)) = cleanup_buffers_parts(bytes) {
        let envelope = CleanupBuffersView::of_wire(wire);
        law_address_accepted(envelope.address);
        assert(envelope.wire() == wire);
        if ascending_fault(wire.3) is None {
            law_buffer_removals_ascend(wire.3);
        }
        if ascend_from_one(wire.3) {
            lemma_ids_pass(wire.3);
        }
    }
}

// ---------- bodies ----------

/// What the inserts of an edit claim, in order.
pub open spec fn claims(ops: Seq<PieceTextEditItemManifest>) -> Seq<InsertedBufferManifest> {
    ops.filter(|op: PieceTextEditItemManifest| op is Insert).map_values(
        |op: PieceTextEditItemManifest| op->inserted,
    )
}

proof fn lemma_claims(ops: Seq<PieceTextEditItemManifest>)
    ensures
        inserted_manifests(ops) == claims(ops),
    decreases ops.len(),
{
    reveal(Seq::filter);
    if ops.len() > 0 {
        lemma_claims(ops.drop_last());
        assert(claims(ops) =~= (if ops.last() is Insert {
            claims(ops.drop_last()).push(ops.last()->inserted)
        } else {
            claims(ops.drop_last())
        }));
    }
}

proof fn lemma_body_total(bodies: Seq<Vec<u8>>, n: int)
    requires
        0 <= n <= bodies.len(),
    ensures
        body_total(bodies, n) == bytes_together(bodies.take(n)),
        0 <= body_total(bodies, n),
    decreases n,
{
    if n > 0 {
        lemma_body_total(bodies, n - 1);
        assert(bodies.take(n).drop_last() =~= bodies.take(n - 1));
    } else {
        assert(bodies.take(0) =~= Seq::empty());
    }
}

/// The bytes of bodies, all together.
pub open spec fn bytes_together(bodies: Seq<Vec<u8>>) -> int {
    bodies.fold_left(0int, |sum: int, body: Vec<u8>| sum + body@.len())
}

/// Bodies that were accepted are as the inserts claim: each has the length claimed
/// and was given the hash claimed for it, and neither one of them nor all together
/// are too long.
pub proof fn law_accepted_bodies<T, F: FnMut(usize, &[u8]) -> Result<
    ValidatedPieceTextInsertedBody<T>,
    ChangelogError,
>>(
    ops: Seq<PieceTextEditItemManifest>,
    bodies: Seq<Vec<u8>>,
    value_for_body: F,
    values: Seq<ValidatedPieceTextInsertedBody<T>>,
)
    requires
        bodies.len() == inserted_manifests(ops).len(),
        values.len() == bodies.len(),
        bodies_accepted(inserted_manifests(ops), bodies, value_for_body, values),
    ensures
        claims(ops).len() == bodies.len(),
        bytes_together(bodies) <= 8388608,
        forall|i: int|
            0 <= i < bodies.len() ==> (#[trigger] bodies[i])@.len() == claims(ops)[i].ciphertext_len
                && bodies[i]@.len() <= 262144 && values[i].value_hash@ == claims(ops)[i].ciphertext_value_hash@,
{
    lemma_claims(ops);
    let n = bodies.len() as int;
    lemma_body_total(bodies, n);
    assert(bodies.take(n) =~= bodies);
    if n > 0 {
        let last = values[n - 1];
        assert(body_fault(inserted_manifests(ops), bodies, n - 1) is None);
    }
    assert forall|i: int| 0 <= i < bodies.len() implies (#[trigger] bodies[i])@.len() == claims(
        ops,
    )[i].ciphertext_len && bodies[i]@.len() <= 262144 && values[i].value_hash@ == claims(
        ops,
    )[i].ciphertext_value_hash@ by {
        let value = values[i];
        assert(body_fault(inserted_manifests(ops), bodies, i) is None);
    }
}

/// A body is refused before its value is looked at only where it is not as claimed,
/// or it or the bodies so far are too long.
pub proof fn law_refused_body(ops: Seq<PieceTextEditItemManifest>, bodies: Seq<Vec<u8>>, i: int)
    requires
        0 <= i < bodies.len() == inserted_manifests(ops).len(),
    ensures
        body_fault(inserted_manifests(ops), bodies, i) is None <==> {
            &&& bodies[i]@.len() == claims(ops)[i].ciphertext_len
            &&& bodies[i]@.len() <= 262144
            &&& bytes_together(bodies.take(i + 1)) <= 8388608
        },
{
    lemma_claims(ops);
    lemma_body_total(bodies, i + 1);
}

} // verus!
