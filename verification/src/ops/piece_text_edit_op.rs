//! The edit of a document.

use std::collections::BTreeMap;

use vstd::prelude::*;

use crate::changelog::{ChangelogEntry, ChangelogError, ErrorView};
use crate::faults::{Cell, CellKind, OpFault, OpFaultView, OpName, StorageFault};
use crate::ops::{
    address_key, address_storage_key, agrees, check_parent, decode_op_int, decode_op_raw_int,
    document_reads, ensure_no_duplicate_write_keys, first_repeated, first_value, includes_name,
    lemma_document_reads, names_include, op_int, op_raw_int, parent_fault, read_first, refusal,
    storage_error, storage_failure, within, OpVerifyResult,
};
use crate::piece_text::{
    decode_message, insert_total, AddressView, EnvelopeView, PieceCoord, PieceTextAddress,
    PieceTextEditEnvelopeV1, MAX_BUFFER_LEN_BYTES,
};
use crate::piece_text_overlay::{start_fault, start_state, EditState, IndexedPieceEditPlanner};
use crate::piece_text_planner::{
    buffer_inserts_view, BufferInsertView, BufferMeta, BufferRowInsert, OutputView, PieceRowInsert,
    PieceRowUpdate, PlannerOutput,
};
use crate::piece_text_resolver::{
    buffer_column_key, buffer_index_puts, buffer_key, buffers_insert_index_puts, piece_column_key,
    piece_coords_insert_index_puts, piece_index_puts, piece_key, BufferColumn, PieceColumn,
};
use crate::storage::{
    batch_view, buffer_table, buffer_table_name, i64_be, i64_to_be, lemma_made_none, lemma_made_one,
    lemma_made_then, lemma_made_up_to, made, piece_table, piece_table_name, same_key, Answers, BatchOp, BatchOpView, KeyView, OpReader, ReadOp, ReadOpView, StorageKey,
    StoredValue, ValueView,
};

verus! {

/// How much an edit looked at and writes.
#[derive(Clone, Copy, Debug, PartialEq, Eq)]
pub struct PieceTextEditExecutionMetrics {
    /// Rows of the tree that the edit came to.
    pub piece_rows_read: usize,
    /// Buffers that these rows lie in.
    pub buffer_rows_read: usize,
    pub inserted_piece_rows: usize,
    pub updated_piece_rows: usize,
    pub inserted_buffer_rows: usize,
    pub write_ops: usize,
}

impl Default for PieceTextEditExecutionMetrics {
    fn default() -> (m: Self)
        ensures
            m == (PieceTextEditExecutionMetrics {
                piece_rows_read: 0,
                buffer_rows_read: 0,
                inserted_piece_rows: 0,
                updated_piece_rows: 0,
                inserted_buffer_rows: 0,
                write_ops: 0,
            }),
    {
        PieceTextEditExecutionMetrics {
            piece_rows_read: 0,
            buffer_rows_read: 0,
            inserted_piece_rows: 0,
            updated_piece_rows: 0,
            inserted_buffer_rows: 0,
            write_ops: 0,
        }
    }
}

/// What is found out outside the library about a table's rule for writing.
#[derive(Debug)]
pub struct AclChecks {
    /// Whether there is a rule.
    pub has_rule: Result<bool, ChangelogError>,
    /// Whether the columns that the rule looks at could be read.
    pub values: Result<(), ChangelogError>,
    /// Whether the rule lets the author write, going by what was read.
    pub verdict: Result<(), ChangelogError>,
}

/// What stands against a write, if anything. Without a rule everyone may write,
/// and nothing is read or judged.
pub open spec fn write_acl_fault(acl: AclChecks) -> Option<ErrorView> {
    match acl.has_rule {
        Err(e) => Some(e@),
        Ok(false) => None,
        Ok(true) => match acl.values {
            Err(e) => Some(e@),
            Ok(_) => match acl.verdict {
                Err(e) => Some(e@),
                Ok(_) => None,
            },
        },
    }
}

/// Whether the author may write, by a table's rule.
pub fn enforce_parent_write_acl(acl: AclChecks) -> (r: Result<(), ChangelogError>)
    ensures
        match write_acl_fault(acl) {
            Some(e) => r matches Err(x) && x@ == e,
            None => r is Ok,
        },
{
    if !acl.has_rule? {
        return Ok(());
    }
    acl.values?;
    acl.verdict
}

/// The outcomes of the checks that are made outside the library.
#[derive(Debug)]
pub struct EditChecks {
    /// Whether the author may make changes.
    pub user_access: Result<(), ChangelogError>,
    /// Whether the table may be written to outside an action.
    pub only_via_actions: Result<(), ChangelogError>,
    /// The table's columns that hold documents.
    pub piece_text_columns: Result<Vec<String>, ChangelogError>,
    /// What the table's rule for writing says of the document's row.
    pub write_acl: AclChecks,
    /// The next free ids of rows and of buffers.
    pub piece_next_id: Result<i64, ChangelogError>,
    pub buffers_next_id: Result<i64, ChangelogError>,
}

// ---------- puts ----------

pub open spec fn int_put(key: KeyView, value: i64) -> BatchOpView {
    BatchOpView::Put { key, value: ValueView::Int(value) }
}

pub open spec fn text_put(key: KeyView, value: Seq<char>) -> BatchOpView {
    BatchOpView::Put { key, value: ValueView::Text(value) }
}

pub open spec fn raw_int_put(key: KeyView, value: i64) -> BatchOpView {
    BatchOpView::Put { key, value: ValueView::Raw(i64_be(value)) }
}

pub open spec fn next_id_put(table: Seq<char>, next: i64) -> BatchOpView {
    raw_int_put(KeyView::NextId { table }, next)
}

pub open spec fn tombstone_value(tombstone: bool) -> i64 {
    if tombstone {
        1
    } else {
        0
    }
}

fn stored_i64_put(key: StorageKey, value: i64) -> (op: BatchOp)
    ensures
        op@ == int_put(key@, value),
{
    BatchOp::Put { key, value: StoredValue::Int(value) }
}

fn stored_text_put(key: StorageKey, value: &String) -> (op: BatchOp)
    ensures
        op@ == text_put(key@, value@),
{
    BatchOp::Put { key, value: StoredValue::Text(value.clone()) }
}

pub(crate) fn raw_i64_put(key: StorageKey, value: i64) -> (op: BatchOp)
    ensures
        op@ == raw_int_put(key@, value),
{
    BatchOp::Put { key, value: StoredValue::Raw(i64_to_be(value)) }
}

/// Adds one write.
fn push_op(ops: &mut Vec<BatchOp>, op: BatchOp)
    ensures
        batch_view(final(ops)@) == batch_view(old(ops)@).push(op@),
{
    ops.push(op);
    assert(batch_view(ops@) =~= batch_view(old(ops)@).push(op@));
}

/// Adds several writes.
fn push_ops(ops: &mut Vec<BatchOp>, more: Vec<BatchOp>)
    ensures
        batch_view(final(ops)@) == batch_view(old(ops)@) + batch_view(more@),
{
    let ghost added = more@;
    let mut more = more;
    ops.append(&mut more);
    assert(batch_view(ops@) =~= batch_view(old(ops)@) + batch_view(added));
}

/// What writes amount to, after others.
pub open spec fn after(before: Seq<BatchOpView>, writes: Result<Seq<BatchOpView>, ErrorView>) -> Result<
    Seq<BatchOpView>,
    ErrorView,
> {
    match writes {
        Ok(w) => Ok(before + w),
        Err(e) => Err(e),
    }
}

/// The writes were added, or the call failed as expected.
pub open spec fn added(
    before: Seq<BatchOp>,
    after: Seq<BatchOp>,
    r: Result<(), ChangelogError>,
    writes: Result<Seq<BatchOpView>, ErrorView>,
) -> bool {
    match writes {
        Ok(w) => r is Ok && batch_view(after) == batch_view(before) + w,
        Err(e) => r matches Err(x) && x@ == e,
    }
}

// ---------- writes of one row ----------

/// The writes of a new buffer.
pub open spec fn buffer_writes(insert: BufferInsertView, address: AddressView) -> Result<
    Seq<BatchOpView>,
    ErrorView,
> {
    let id = insert.new_id;
    if id <= 0 || address.row_id <= 0 {
        Err(
            ErrorView::Storage(
                StorageFault::BufferIndexNotPositive { row_id: id, owner_row_id: address.row_id },
            ),
        )
    } else {
        Ok(
            seq![
                text_put(buffer_key(id, BufferColumn::OwnerTable), address.table),
                int_put(buffer_key(id, BufferColumn::OwnerRowId), address.row_id),
                text_put(buffer_key(id, BufferColumn::OwnerColumn), address.column),
                int_put(buffer_key(id, BufferColumn::AuthorId), insert.author_id),
                int_put(buffer_key(id, BufferColumn::LenBytes), insert.len_bytes as i64),
                BatchOpView::Put {
                    key: buffer_key(id, BufferColumn::Contents),
                    value: ValueView::Raw(insert.ciphertext_value_hash@),
                },
            ] + buffer_index_puts(id, address.table, address.row_id, address.column),
        )
    }
}

/// The writes of a new row.
pub open spec fn piece_writes(row: PieceRowInsert) -> Result<Seq<BatchOpView>, ErrorView> {
    let id = row.new_id;
    let coord = row.coord;
    if id <= 0 || row.list_number <= 0 || coord.buffer_id <= 0 {
        Err(
            ErrorView::Storage(
                StorageFault::PieceIndexNotPositive {
                    row_id: id,
                    list_number: row.list_number,
                    buffer_id: coord.buffer_id,
                },
            ),
        )
    } else {
        Ok(
            seq![
                int_put(piece_key(id, PieceColumn::ListNumber), row.list_number),
                int_put(piece_key(id, PieceColumn::PrevId), row.prev_id),
                int_put(piece_key(id, PieceColumn::NextId), row.next_id),
                int_put(piece_key(id, PieceColumn::BufferId), coord.buffer_id),
                int_put(piece_key(id, PieceColumn::StartByte), coord.start_byte as i64),
                int_put(piece_key(id, PieceColumn::LenBytes), coord.len_bytes as i64),
                int_put(piece_key(id, PieceColumn::Tombstone), tombstone_value(coord.tombstone)),
            ] + piece_index_puts(id, row.list_number, coord.buffer_id),
        )
    }
}

/// The writes of a row whose range changes. Only its length and whether it is
/// deleted may change.
pub open spec fn coord_writes(id: i64, coord: PieceCoord, originals: Map<i64, PieceCoord>) -> Result<
    Seq<BatchOpView>,
    ErrorView,
> {
    if !originals.contains_key(id) {
        Err(refusal(OpName::PieceTextEdit, OpFaultView::UnknownUpdate { row_id: id }))
    } else if originals[id].buffer_id != coord.buffer_id || originals[id].start_byte
        != coord.start_byte {
        Err(refusal(OpName::PieceTextEdit, OpFaultView::StartChanged { row_id: id }))
    } else {
        Ok(
            seq![
                int_put(piece_key(id, PieceColumn::LenBytes), coord.len_bytes as i64),
                int_put(piece_key(id, PieceColumn::Tombstone), tombstone_value(coord.tombstone)),
            ],
        )
    }
}

/// The writes of a row that changes.
pub open spec fn update_writes(update: PieceRowUpdate, originals: Map<i64, PieceCoord>) -> Result<
    Seq<BatchOpView>,
    ErrorView,
> {
    let prev = match update.prev_id {
        Some(prev_id) => seq![int_put(piece_key(update.id, PieceColumn::PrevId), prev_id)],
        None => Seq::empty(),
    };
    let next = match update.next_id {
        Some(next_id) => seq![int_put(piece_key(update.id, PieceColumn::NextId), next_id)],
        None => Seq::empty(),
    };
    match update.coord {
        Some(coord) => after(prev + next, coord_writes(update.id, coord, originals)),
        None => Ok(prev + next),
    }
}

fn buffer_insert_writes(ops: &mut Vec<BatchOp>, insert: &BufferRowInsert, address: &PieceTextAddress) -> (r:
    Result<(), ChangelogError>)
    ensures
        added(old(ops)@, final(ops)@, r, buffer_writes(insert@, address@)),
{
    let id: i64 = insert.new_id;
    let mut contents: Vec<u8> = Vec::new();
    contents.extend_from_slice(insert.ciphertext_value_hash.as_slice());
    assert(contents@ =~= insert.ciphertext_value_hash@);
    let index_puts = buffers_insert_index_puts(
        id,
        address.table.as_str(),
        address.row_id,
        address.column.as_str(),
    )?;
    let puts = vec![
        stored_text_put(buffer_column_key(id, BufferColumn::OwnerTable), &address.table),
        stored_i64_put(buffer_column_key(id, BufferColumn::OwnerRowId), address.row_id),
        stored_text_put(buffer_column_key(id, BufferColumn::OwnerColumn), &address.column),
        stored_i64_put(buffer_column_key(id, BufferColumn::AuthorId), insert.author_id),
        stored_i64_put(buffer_column_key(id, BufferColumn::LenBytes), insert.len_bytes as i64),
        BatchOp::Put {
            key: buffer_column_key(id, BufferColumn::Contents),
            value: StoredValue::Raw(contents),
        },
    ];
    proof {
        let w = buffer_writes(insert@, address@)->Ok_0;
        assert(batch_view(puts@) + batch_view(index_puts@) =~= w);
        assert(batch_view(old(ops)@) + batch_view(puts@) + batch_view(index_puts@) =~= batch_view(
            old(ops)@,
        ) + w);
    }
    push_ops(ops, puts);
    push_ops(ops, index_puts);
    Ok(())
}

fn piece_coords_insert_writes(ops: &mut Vec<BatchOp>, row: &PieceRowInsert) -> (r: Result<
    (),
    ChangelogError,
>)
    ensures
        added(old(ops)@, final(ops)@, r, piece_writes(*row)),
{
    let id: i64 = row.new_id;
    let coord = row.coord;
    let index_puts = piece_coords_insert_index_puts(id, row.list_number, coord.buffer_id)?;
    let puts = vec![
        stored_i64_put(piece_column_key(id, PieceColumn::ListNumber), row.list_number),
        stored_i64_put(piece_column_key(id, PieceColumn::PrevId), row.prev_id),
        stored_i64_put(piece_column_key(id, PieceColumn::NextId), row.next_id),
        stored_i64_put(piece_column_key(id, PieceColumn::BufferId), coord.buffer_id),
        stored_i64_put(piece_column_key(id, PieceColumn::StartByte), coord.start_byte as i64),
        stored_i64_put(piece_column_key(id, PieceColumn::LenBytes), coord.len_bytes as i64),
        stored_i64_put(
            piece_column_key(id, PieceColumn::Tombstone),
            if coord.tombstone {
                1
            } else {
                0
            },
        ),
    ];
    proof {
        let w = piece_writes(*row)->Ok_0;
        assert(batch_view(puts@) + batch_view(index_puts@) =~= w);
        assert(batch_view(old(ops)@) + batch_view(puts@) + batch_view(index_puts@) =~= batch_view(
            old(ops)@,
        ) + w);
    }
    push_ops(ops, puts);
    push_ops(ops, index_puts);
    Ok(())
}

fn piece_update_writes(
    ops: &mut Vec<BatchOp>,
    update: &PieceRowUpdate,
    originals: &BTreeMap<i64, PieceCoord>,
) -> (r: Result<(), ChangelogError>)
    ensures
        added(old(ops)@, final(ops)@, r, update_writes(*update, originals@)),
{
    broadcast use vstd::std_specs::btree::group_btree_axioms;

    let id: i64 = update.id;
    let ghost start = batch_view(ops@);
    if let Some(prev_id) = update.prev_id {
        push_op(ops, stored_i64_put(piece_column_key(id, PieceColumn::PrevId), prev_id));
    }
    if let Some(next_id) = update.next_id {
        push_op(ops, stored_i64_put(piece_column_key(id, PieceColumn::NextId), next_id));
    }
    if let Some(coord) = update.coord {
        let original = match originals.get(&id) {
            Some(original) => original,
            None => {
                return Err(
                    ChangelogError::Refused(
                        OpName::PieceTextEdit,
                        OpFault::UnknownUpdate { row_id: id },
                    ),
                );
            },
        };
        if original.buffer_id != coord.buffer_id || original.start_byte != coord.start_byte {
            return Err(
                ChangelogError::Refused(
                    OpName::PieceTextEdit,
                    OpFault::StartChanged { row_id: id },
                ),
            );
        }
        push_op(
            ops,
            stored_i64_put(piece_column_key(id, PieceColumn::LenBytes), coord.len_bytes as i64),
        );
        push_op(
            ops,
            stored_i64_put(
                piece_column_key(id, PieceColumn::Tombstone),
                if coord.tombstone {
                    1
                } else {
                    0
                },
            ),
        );
    }
    assert(batch_view(ops@) =~= start + update_writes(*update, originals@)->Ok_0);
    Ok(())
}

// ---------- writes of an edit ----------

/// The first planned row that would split a scalar.
pub open spec fn planned_rows_fault(rows: Seq<PieceRowInsert>) -> Option<ErrorView>
    decreases rows.len(),
{
    if rows.len() == 0 {
        None
    } else {
        match planned_rows_fault(rows.drop_last()) {
            Some(e) => Some(e),
            None => if rows.last().coord.aligned() {
                None
            } else {
                Some(
                    refusal(
                        OpName::PieceTextEdit,
                        OpFaultView::PlannedRow {
                            row_id: rows.last().new_id,
                            start_byte: rows.last().coord.start_byte,
                            len_bytes: rows.last().coord.len_bytes,
                        },
                    ),
                )
            },
        }
    }
}

/// The first planned change that would make a row split a scalar.
pub open spec fn planned_updates_fault(updates: Seq<PieceRowUpdate>) -> Option<ErrorView>
    decreases updates.len(),
{
    if updates.len() == 0 {
        None
    } else {
        match planned_updates_fault(updates.drop_last()) {
            Some(e) => Some(e),
            None => match updates.last().coord {
                Some(coord) => if coord.aligned() {
                    None
                } else {
                    Some(
                        refusal(
                            OpName::PieceTextEdit,
                            OpFaultView::PlannedUpdate {
                                row_id: updates.last().id,
                                start_byte: coord.start_byte,
                                len_bytes: coord.len_bytes,
                            },
                        ),
                    )
                },
                None => None,
            },
        }
    }
}

pub open spec fn buffers_writes(inserts: Seq<BufferInsertView>, address: AddressView) -> Result<
    Seq<BatchOpView>,
    ErrorView,
>
    decreases inserts.len(),
{
    if inserts.len() == 0 {
        Ok(Seq::empty())
    } else {
        match buffers_writes(inserts.drop_last(), address) {
            Err(e) => Err(e),
            Ok(before) => after(before, buffer_writes(inserts.last(), address)),
        }
    }
}

pub open spec fn pieces_writes(rows: Seq<PieceRowInsert>) -> Result<Seq<BatchOpView>, ErrorView>
    decreases rows.len(),
{
    if rows.len() == 0 {
        Ok(Seq::empty())
    } else {
        match pieces_writes(rows.drop_last()) {
            Err(e) => Err(e),
            Ok(before) => after(before, piece_writes(rows.last())),
        }
    }
}

pub open spec fn updates_writes(updates: Seq<PieceRowUpdate>, originals: Map<i64, PieceCoord>) -> Result<
    Seq<BatchOpView>,
    ErrorView,
>
    decreases updates.len(),
{
    if updates.len() == 0 {
        Ok(Seq::empty())
    } else {
        match updates_writes(updates.drop_last(), originals) {
            Err(e) => Err(e),
            Ok(before) => after(before, update_writes(updates.last(), originals)),
        }
    }
}

pub open spec fn next_id_writes(table: Seq<char>, next: Option<i64>) -> Seq<BatchOpView> {
    match next {
        Some(next) => seq![next_id_put(table, next)],
        None => Seq::empty(),
    }
}

pub open spec fn endpoint_writes(key: KeyView, row_id: Option<i64>) -> Seq<BatchOpView> {
    match row_id {
        Some(row_id) => seq![raw_int_put(key, row_id)],
        None => Seq::empty(),
    }
}

/// The writes of an edit, in order: buffers, new rows, changed rows, counters
/// and endpoints.
pub open spec fn edit_writes(
    address: AddressView,
    list_number: i64,
    output: OutputView,
    originals: Map<i64, PieceCoord>,
) -> Result<Seq<BatchOpView>, ErrorView> {
    match buffers_writes(output.buffer_inserts, address) {
        Err(e) => Err(e),
        Ok(buffers) => match pieces_writes(output.piece_inserts) {
            Err(e) => Err(e),
            Ok(rows) => match updates_writes(output.piece_updates, originals) {
                Err(e) => Err(e),
                Ok(updates) => Ok(
                    buffers + next_id_writes(buffer_table(), output.buffers_next_id_post) + rows
                        + updates + next_id_writes(piece_table(), output.piece_next_id_post)
                        + endpoint_writes(KeyView::PieceHead { list_number }, output.head_update)
                        + endpoint_writes(KeyView::PieceTail { list_number }, output.tail_update),
                ),
            },
        },
    }
}

/// The writes of an edit, unless a range would split a scalar or two writes are
/// to the same key.
pub open spec fn checked_writes(
    address: AddressView,
    list_number: i64,
    output: OutputView,
    originals: Map<i64, PieceCoord>,
) -> Result<Seq<BatchOpView>, ErrorView> {
    match planned_rows_fault(output.piece_inserts) {
        Some(e) => Err(e),
        None => match planned_updates_fault(output.piece_updates) {
            Some(e) => Err(e),
            None => match edit_writes(address, list_number, output, originals) {
                Err(e) => Err(e),
                Ok(writes) => match first_repeated(writes) {
                    Some(key) => Err(
                        refusal(OpName::PieceTextEdit, OpFaultView::DuplicateWriteKey { key }),
                    ),
                    None => Ok(writes),
                },
            },
        },
    }
}

proof fn lemma_buffers_writes_stop(inserts: Seq<BufferInsertView>, address: AddressView, n: int)
    requires
        0 <= n <= inserts.len(),
        buffers_writes(inserts.take(n), address) is Err,
    ensures
        buffers_writes(inserts, address) == buffers_writes(inserts.take(n), address),
    decreases inserts.len(),
{
    if n == inserts.len() {
        assert(inserts.take(n) =~= inserts);
    } else {
        assert(inserts.drop_last().take(n) =~= inserts.take(n));
        lemma_buffers_writes_stop(inserts.drop_last(), address, n);
    }
}

proof fn lemma_pieces_writes_stop(rows: Seq<PieceRowInsert>, n: int)
    requires
        0 <= n <= rows.len(),
        pieces_writes(rows.take(n)) is Err,
    ensures
        pieces_writes(rows) == pieces_writes(rows.take(n)),
    decreases rows.len(),
{
    if n == rows.len() {
        assert(rows.take(n) =~= rows);
    } else {
        assert(rows.drop_last().take(n) =~= rows.take(n));
        lemma_pieces_writes_stop(rows.drop_last(), n);
    }
}

proof fn lemma_updates_writes_stop(updates: Seq<PieceRowUpdate>, originals: Map<i64, PieceCoord>, n: int)
    requires
        0 <= n <= updates.len(),
        updates_writes(updates.take(n), originals) is Err,
    ensures
        updates_writes(updates, originals) == updates_writes(updates.take(n), originals),
    decreases updates.len(),
{
    if n == updates.len() {
        assert(updates.take(n) =~= updates);
    } else {
        assert(updates.drop_last().take(n) =~= updates.take(n));
        lemma_updates_writes_stop(updates.drop_last(), originals, n);
    }
}

proof fn lemma_planned_rows_stop(rows: Seq<PieceRowInsert>, n: int)
    requires
        0 <= n <= rows.len(),
        planned_rows_fault(rows.take(n)) is Some,
    ensures
        planned_rows_fault(rows) == planned_rows_fault(rows.take(n)),
    decreases rows.len(),
{
    if n == rows.len() {
        assert(rows.take(n) =~= rows);
    } else {
        assert(rows.drop_last().take(n) =~= rows.take(n));
        lemma_planned_rows_stop(rows.drop_last(), n);
    }
}

proof fn lemma_planned_updates_stop(updates: Seq<PieceRowUpdate>, n: int)
    requires
        0 <= n <= updates.len(),
        planned_updates_fault(updates.take(n)) is Some,
    ensures
        planned_updates_fault(updates) == planned_updates_fault(updates.take(n)),
    decreases updates.len(),
{
    if n == updates.len() {
        assert(updates.take(n) =~= updates);
    } else {
        assert(updates.drop_last().take(n) =~= updates.take(n));
        lemma_planned_updates_stop(updates.drop_last(), n);
    }
}

/// Checks the ranges that an edit is about to write.
fn check_planned(output: &PlannerOutput) -> (r: Result<(), ChangelogError>)
    ensures
        match planned_rows_fault(output.piece_inserts@) {
            Some(e) => r matches Err(x) && x@ == e,
            None => match planned_updates_fault(output.piece_updates@) {
                Some(e) => r matches Err(x) && x@ == e,
                None => r is Ok,
            },
        },
{
    let rows = &output.piece_inserts;
    let mut i: usize = 0;
    while i < rows.len()
        invariant
            i <= rows.len(),
            rows == output.piece_inserts,
            planned_rows_fault(rows@.take(i as int)) is None,
        decreases rows.len() - i,
    {
        let insert = rows[i];
        proof {
            assert(rows@.take(i + 1).drop_last() =~= rows@.take(i as int));
            if planned_rows_fault(rows@.take(i + 1)) is Some {
                lemma_planned_rows_stop(rows@, i + 1);
            }
        }
        if insert.coord.validate_utf32_alignment().is_err() {
            return Err(
                ChangelogError::Refused(
                    OpName::PieceTextEdit,
                    OpFault::PlannedRow {
                        row_id: insert.new_id,
                        start_byte: insert.coord.start_byte,
                        len_bytes: insert.coord.len_bytes,
                    },
                ),
            );
        }
        i = i + 1;
    }
    assert(rows@.take(i as int) =~= rows@);
    let updates = &output.piece_updates;
    let mut k: usize = 0;
    while k < updates.len()
        invariant
            k <= updates.len(),
            updates == output.piece_updates,
            planned_rows_fault(output.piece_inserts@) is None,
            planned_updates_fault(updates@.take(k as int)) is None,
        decreases updates.len() - k,
    {
        let update = updates[k];
        proof {
            assert(updates@.take(k + 1).drop_last() =~= updates@.take(k as int));
            if planned_updates_fault(updates@.take(k + 1)) is Some {
                lemma_planned_updates_stop(updates@, k + 1);
            }
        }
        if let Some(coord) = update.coord {
            if coord.validate_utf32_alignment().is_err() {
                return Err(
                    ChangelogError::Refused(
                        OpName::PieceTextEdit,
                        OpFault::PlannedUpdate {
                            row_id: update.id,
                            start_byte: coord.start_byte,
                            len_bytes: coord.len_bytes,
                        },
                    ),
                );
            }
        }
        k = k + 1;
    }
    assert(updates@.take(k as int) =~= updates@);
    Ok(())
}

fn push_buffers(ops: &mut Vec<BatchOp>, inserts: &Vec<BufferRowInsert>, address: &PieceTextAddress) -> (r:
    Result<(), ChangelogError>)
    ensures
        added(old(ops)@, final(ops)@, r, buffers_writes(buffer_inserts_view(inserts@), address@)),
{
    let ghost all = buffer_inserts_view(inserts@);
    let ghost start = batch_view(ops@);
    let mut i: usize = 0;
    assert(start + Seq::empty() =~= start);
    while i < inserts.len()
        invariant
            i <= inserts.len(),
            all == buffer_inserts_view(inserts@),
            start == batch_view(old(ops)@),
            buffers_writes(all.take(i as int), address@) matches Ok(w) && batch_view(ops@) == start + w,
        decreases inserts.len() - i,
    {
        let ghost before = batch_view(ops@);
        proof {
            assert(all.take(i + 1).drop_last() =~= all.take(i as int));
            assert(all.take(i + 1).last() == inserts@[i as int]@);
            if buffers_writes(all.take(i + 1), address@) is Err {
                lemma_buffers_writes_stop(all, address@, i + 1);
            }
        }
        buffer_insert_writes(ops, &inserts[i], address)?;
        proof {
            let w = buffers_writes(all.take(i as int), address@)->Ok_0;
            let more = buffer_writes(inserts@[i as int]@, address@)->Ok_0;
            assert(start + w + more =~= start + (w + more));
        }
        i = i + 1;
    }
    assert(all.take(i as int) =~= all);
    Ok(())
}

fn push_pieces(ops: &mut Vec<BatchOp>, rows: &Vec<PieceRowInsert>) -> (r: Result<(), ChangelogError>)
    ensures
        added(old(ops)@, final(ops)@, r, pieces_writes(rows@)),
{
    let ghost start = batch_view(ops@);
    let mut i: usize = 0;
    assert(start + Seq::empty() =~= start);
    while i < rows.len()
        invariant
            i <= rows.len(),
            start == batch_view(old(ops)@),
            pieces_writes(rows@.take(i as int)) matches Ok(w) && batch_view(ops@) == start + w,
        decreases rows.len() - i,
    {
        proof {
            assert(rows@.take(i + 1).drop_last() =~= rows@.take(i as int));
            if pieces_writes(rows@.take(i + 1)) is Err {
                lemma_pieces_writes_stop(rows@, i + 1);
            }
        }
        piece_coords_insert_writes(ops, &rows[i])?;
        proof {
            let w = pieces_writes(rows@.take(i as int))->Ok_0;
            let more = piece_writes(rows@[i as int])->Ok_0;
            assert(start + w + more =~= start + (w + more));
        }
        i = i + 1;
    }
    assert(rows@.take(i as int) =~= rows@);
    Ok(())
}

fn push_updates(
    ops: &mut Vec<BatchOp>,
    updates: &Vec<PieceRowUpdate>,
    originals: &BTreeMap<i64, PieceCoord>,
) -> (r: Result<(), ChangelogError>)
    ensures
        added(old(ops)@, final(ops)@, r, updates_writes(updates@, originals@)),
{
    let ghost start = batch_view(ops@);
    let mut i: usize = 0;
    assert(start + Seq::empty() =~= start);
    while i < updates.len()
        invariant
            i <= updates.len(),
            start == batch_view(old(ops)@),
            updates_writes(updates@.take(i as int), originals@) matches Ok(w) && batch_view(ops@)
                == start + w,
        decreases updates.len() - i,
    {
        proof {
            assert(updates@.take(i + 1).drop_last() =~= updates@.take(i as int));
            if updates_writes(updates@.take(i + 1), originals@) is Err {
                lemma_updates_writes_stop(updates@, originals@, i + 1);
            }
        }
        piece_update_writes(ops, &updates[i], originals)?;
        proof {
            let w = updates_writes(updates@.take(i as int), originals@)->Ok_0;
            let more = update_writes(updates@[i as int], originals@)->Ok_0;
            assert(start + w + more =~= start + (w + more));
        }
        i = i + 1;
    }
    assert(updates@.take(i as int) =~= updates@);
    Ok(())
}

fn push_next_id(ops: &mut Vec<BatchOp>, table: String, next: Option<i64>)
    ensures
        batch_view(final(ops)@) == batch_view(old(ops)@) + next_id_writes(table@, next),
{
    if let Some(next) = next {
        push_op(ops, raw_i64_put(StorageKey::NextId { table }, next));
    }
    assert(batch_view(ops@) =~= batch_view(old(ops)@) + next_id_writes(table@, next));
}

fn push_endpoint(ops: &mut Vec<BatchOp>, key: StorageKey, row_id: Option<i64>)
    ensures
        batch_view(final(ops)@) == batch_view(old(ops)@) + endpoint_writes(key@, row_id),
{
    let ghost key_view = key@;
    if let Some(row_id) = row_id {
        push_op(ops, raw_i64_put(key, row_id));
    }
    assert(batch_view(ops@) =~= batch_view(old(ops)@) + endpoint_writes(key_view, row_id));
}

/// The writes that a planned edit amounts to.
pub fn materialise_planner_output(
    address: &PieceTextAddress,
    list_number: i64,
    output: &PlannerOutput,
    original_coords: &BTreeMap<i64, PieceCoord>,
) -> (r: Result<Vec<BatchOp>, ChangelogError>)
    ensures
        match checked_writes(address@, list_number, output@, original_coords@) {
            Ok(writes) => r matches Ok(ops) && batch_view(ops@) == writes,
            Err(e) => r matches Err(x) && x@ == e,
        },
{
    check_planned(output)?;
    let mut ops: Vec<BatchOp> = Vec::new();
    assert(batch_view(ops@) =~= Seq::empty());
    push_buffers(&mut ops, &output.buffer_inserts, address)?;
    push_next_id(&mut ops, buffer_table_name(), output.buffers_next_id_post);
    push_pieces(&mut ops, &output.piece_inserts)?;
    push_updates(&mut ops, &output.piece_updates, original_coords)?;
    push_next_id(&mut ops, piece_table_name(), output.piece_next_id_post);
    push_endpoint(&mut ops, StorageKey::PieceHead { list_number }, output.head_update);
    push_endpoint(&mut ops, StorageKey::PieceTail { list_number }, output.tail_update);
    proof {
        let writes = edit_writes(address@, list_number, output@, original_coords@)->Ok_0;
        assert(batch_view(ops@) =~= writes);
    }
    ensure_no_duplicate_write_keys(OpName::PieceTextEdit, &ops, 0)?;
    Ok(ops)
}

// ---------- the document ----------

pub open spec fn parent_cell(address: AddressView) -> Cell {
    Cell { kind: CellKind::ParentCell, id: address.row_id }
}

/// The list that a document's cell names.
pub open spec fn parent_list_number(answers: Answers, address: AddressView) -> Result<i64, ErrorView> {
    let op = OpName::PieceTextEdit;
    match answers(ReadOpView::Key(address_key(address))) {
        Err(e) => Err(e@),
        Ok(results) => if results.len() == 0 {
            Err(
                refusal(
                    op,
                    OpFaultView::ParentCellAbsent {
                        table: address.table,
                        row_id: address.row_id,
                        column: address.column,
                    },
                ),
            )
        } else if results[0].0 != address_key(address) {
            Err(storage_error(op, StorageFault::WrongKey { cell: parent_cell(address) }))
        } else {
            op_int(op, results[0].1, parent_cell(address))
        },
    }
}

fn read_parent_list_number<R: OpReader>(reader: &mut R, address: &PieceTextAddress) -> (r: Result<
    i64,
    ChangelogError,
>)
    ensures
        final(reader).answers() == old(reader).answers(),
        final(reader).log() == old(reader).log().push(ReadOpView::Key(address_key(address@))),
        agrees(r, parent_list_number(old(reader).answers(), address@)),
{
    let op = OpName::PieceTextEdit;
    let cell = Cell { kind: CellKind::ParentCell, id: address.row_id };
    let mut read = reader.read(ReadOp::Key(address_storage_key(address)))?;
    let ghost seen = read@;
    assert(seen.len() == read.results.len());
    if read.results.len() == 0 {
        return Err(
            ChangelogError::Refused(
                op,
                OpFault::ParentCellAbsent {
                    table: address.table.clone(),
                    row_id: address.row_id,
                    column: address.column.clone(),
                },
            ),
        );
    }
    assert(seen[0] == (read.results@[0].0@, read.results@[0].1@));
    let (actual_key, value) = read.results.swap_remove(0);
    if !same_key(&actual_key, &address_storage_key(address)) {
        return Err(storage_failure(op, StorageFault::WrongKey { cell }));
    }
    decode_op_int(op, &value, cell)
}

/// What is wrong with the way back from a list to its document, if anything.
pub open spec fn parent_link_fault(answers: Answers, list_number: i64, address: AddressView) -> Option<
    ErrorView,
> {
    let op = OpName::PieceTextEdit;
    let cell = Cell { kind: CellKind::Parent, id: list_number };
    match first_value(answers, op, KeyView::PieceParent { list_number }, cell) {
        Err(e) => Some(e),
        Ok(v) => parent_fault(op, list_number, v, cell, address),
    }
}

fn authenticate_piece_text_parent<R: OpReader>(
    reader: &mut R,
    list_number: i64,
    address: &PieceTextAddress,
) -> (r: Result<(), ChangelogError>)
    ensures
        final(reader).answers() == old(reader).answers(),
        final(reader).log() == old(reader).log().push(
            ReadOpView::Key(KeyView::PieceParent { list_number }),
        ),
        match parent_link_fault(old(reader).answers(), list_number, address@) {
            Some(e) => r matches Err(x) && x@ == e,
            None => r is Ok,
        },
{
    let cell = Cell { kind: CellKind::Parent, id: list_number };
    let value = read_first(
        reader,
        OpName::PieceTextEdit,
        StorageKey::PieceParent { list_number },
        cell,
    )?;
    check_parent(OpName::PieceTextEdit, list_number, &value, cell, address)
}

/// An endpoint of a document.
pub open spec fn endpoint_id(answers: Answers, key: KeyView, cell: Cell) -> Result<i64, ErrorView> {
    match first_value(answers, OpName::PieceTextEdit, key, cell) {
        Err(e) => Err(e),
        Ok(v) => op_raw_int(OpName::PieceTextEdit, v, cell),
    }
}

fn read_raw_i64_key<R: OpReader>(reader: &mut R, key: StorageKey, cell: Cell) -> (r: Result<
    i64,
    ChangelogError,
>)
    ensures
        final(reader).answers() == old(reader).answers(),
        final(reader).log() == old(reader).log().push(ReadOpView::Key(key@)),
        agrees(r, endpoint_id(old(reader).answers(), key@, cell)),
{
    let value = read_first(reader, OpName::PieceTextEdit, key, cell)?;
    decode_op_raw_int(OpName::PieceTextEdit, &value, cell)
}

// ---------- buffers ----------

pub struct BufferMetaView {
    pub id: i64,
    pub owner: AddressView,
    pub author_id: i64,
    pub len_bytes: u32,
}

pub open spec fn buffer_cell(buffer_id: i64, kind: CellKind) -> Cell {
    Cell { kind, id: buffer_id }
}

pub open spec fn buffer_int(answers: Answers, buffer_id: i64, column: BufferColumn, kind: CellKind) -> Result<
    i64,
    ErrorView,
> {
    let cell = buffer_cell(buffer_id, kind);
    match first_value(answers, OpName::PieceTextEdit, buffer_key(buffer_id, column), cell) {
        Err(e) => Err(e),
        Ok(v) => op_int(OpName::PieceTextEdit, v, cell),
    }
}

pub open spec fn buffer_text(answers: Answers, buffer_id: i64, column: BufferColumn, kind: CellKind) -> Result<
    Seq<char>,
    ErrorView,
> {
    let cell = buffer_cell(buffer_id, kind);
    match first_value(answers, OpName::PieceTextEdit, buffer_key(buffer_id, column), cell) {
        Err(e) => Err(e),
        Ok(v) => match v {
            ValueView::Text(s) => Ok(s),
            ValueView::Int(_) => Err(
                storage_error(OpName::PieceTextEdit, StorageFault::NotText { cell }),
            ),
            ValueView::Other(_) => Err(
                storage_error(OpName::PieceTextEdit, StorageFault::NotText { cell }),
            ),
            _ => Err(storage_error(OpName::PieceTextEdit, StorageFault::Undecodable { cell })),
        },
    }
}

/// What the tree says of a buffer.
pub open spec fn buffer_meta(answers: Answers, buffer_id: i64) -> Result<BufferMetaView, ErrorView> {
    if buffer_id <= 0 {
        Err(refusal(OpName::PieceTextEdit, OpFaultView::BufferIdNotPositive { buffer_id }))
    } else {
        match buffer_text(answers, buffer_id, BufferColumn::OwnerTable, CellKind::OwnerTable) {
            Err(e) => Err(e),
            Ok(table) => match buffer_int(
                answers,
                buffer_id,
                BufferColumn::OwnerRowId,
                CellKind::OwnerRowId,
            ) {
                Err(e) => Err(e),
                Ok(row_id) => match buffer_text(
                    answers,
                    buffer_id,
                    BufferColumn::OwnerColumn,
                    CellKind::OwnerColumn,
                ) {
                    Err(e) => Err(e),
                    Ok(column) => match buffer_int(
                        answers,
                        buffer_id,
                        BufferColumn::AuthorId,
                        CellKind::AuthorId,
                    ) {
                        Err(e) => Err(e),
                        Ok(author_id) => match buffer_int(
                            answers,
                            buffer_id,
                            BufferColumn::LenBytes,
                            CellKind::BufferLen,
                        ) {
                            Err(e) => Err(e),
                            Ok(len) => if !(0 <= len <= u32::MAX) {
                                Err(
                                    storage_error(
                                        OpName::PieceTextEdit,
                                        StorageFault::OutsideU32 {
                                            cell: buffer_cell(buffer_id, CellKind::BufferLen),
                                            value: len,
                                        },
                                    ),
                                )
                            } else if len == 0 || len > MAX_BUFFER_LEN_BYTES {
                                Err(
                                    refusal(
                                        OpName::PieceTextEdit,
                                        OpFaultView::BufferLenRange {
                                            buffer_id,
                                            len_bytes: len as u32,
                                        },
                                    ),
                                )
                            } else {
                                Ok(
                                    BufferMetaView {
                                        id: buffer_id,
                                        owner: AddressView { table, row_id, column },
                                        author_id,
                                        len_bytes: len as u32,
                                    },
                                )
                            },
                        },
                    },
                },
            },
        }
    }
}

fn read_buffer_i64<R: OpReader>(reader: &mut R, buffer_id: i64, column: BufferColumn, kind: CellKind) -> (r: Result<
    i64,
    ChangelogError,
>)
    ensures
        final(reader).answers() == old(reader).answers(),
        final(reader).log() == old(reader).log().push(ReadOpView::Key(buffer_key(buffer_id, column))),
        agrees(r, buffer_int(old(reader).answers(), buffer_id, column, kind)),
{
    let cell = Cell { kind, id: buffer_id };
    let value = read_first(
        reader,
        OpName::PieceTextEdit,
        buffer_column_key(buffer_id, column),
        cell,
    )?;
    decode_op_int(OpName::PieceTextEdit, &value, cell)
}

fn read_buffer_text<R: OpReader>(reader: &mut R, buffer_id: i64, column: BufferColumn, kind: CellKind) -> (r: Result<
    String,
    ChangelogError,
>)
    ensures
        final(reader).answers() == old(reader).answers(),
        final(reader).log() == old(reader).log().push(ReadOpView::Key(buffer_key(buffer_id, column))),
        match buffer_text(old(reader).answers(), buffer_id, column, kind) {
            Ok(s) => r matches Ok(text) && text@ == s,
            Err(e) => r matches Err(x) && x@ == e,
        },
{
    let cell = Cell { kind, id: buffer_id };
    let value = read_first(
        reader,
        OpName::PieceTextEdit,
        buffer_column_key(buffer_id, column),
        cell,
    )?;
    match value {
        StoredValue::Text(s) => Ok(s),
        StoredValue::Int(_) | StoredValue::Other(_) => Err(
            storage_failure(OpName::PieceTextEdit, StorageFault::NotText { cell }),
        ),
        _ => Err(storage_failure(OpName::PieceTextEdit, StorageFault::Undecodable { cell })),
    }
}

impl View for BufferMeta {
    type V = BufferMetaView;

    open spec fn view(&self) -> BufferMetaView {
        BufferMetaView {
            id: self.id,
            owner: AddressView {
                table: self.owner_table@,
                row_id: self.owner_row_id,
                column: self.owner_column@,
            },
            author_id: self.author_id,
            len_bytes: self.len_bytes,
        }
    }
}

/// The reads of what the tree says of a buffer.
pub open spec fn buffer_reads(buffer_id: i64) -> Seq<ReadOpView> {
    seq![
        ReadOpView::Key(buffer_key(buffer_id, BufferColumn::OwnerTable)),
        ReadOpView::Key(buffer_key(buffer_id, BufferColumn::OwnerRowId)),
        ReadOpView::Key(buffer_key(buffer_id, BufferColumn::OwnerColumn)),
        ReadOpView::Key(buffer_key(buffer_id, BufferColumn::AuthorId)),
        ReadOpView::Key(buffer_key(buffer_id, BufferColumn::LenBytes)),
    ]
}

proof fn lemma_buffer_reads(log: Seq<ReadOpView>, buffer_id: i64)
    ensures
        ({
            let all = buffer_reads(buffer_id);
            let one = log.push(all[0]);
            let two = one.push(all[1]);
            let three = two.push(all[2]);
            let four = three.push(all[3]);
            let five = four.push(all[4]);
            &&& made(log, log, all, false)
            &&& made(log, one, all, false)
            &&& made(log, two, all, false)
            &&& made(log, three, all, false)
            &&& made(log, four, all, false)
            &&& made(log, five, all, true)
        }),
{
    let all = buffer_reads(buffer_id);
    let one = log.push(all[0]);
    let two = one.push(all[1]);
    let three = two.push(all[2]);
    let four = three.push(all[3]);
    let five = four.push(all[4]);
    let whole = log + all;
    assert(whole =~= five);
    assert(whole.subrange(0, log.len() as int) =~= log);
    assert(whole.subrange(0, one.len() as int) =~= one);
    assert(whole.subrange(0, two.len() as int) =~= two);
    assert(whole.subrange(0, three.len() as int) =~= three);
    assert(whole.subrange(0, four.len() as int) =~= four);
    assert(whole.subrange(0, five.len() as int) =~= five);
    assert(one.subrange(0, log.len() as int) =~= log);
    assert(two.subrange(0, log.len() as int) =~= log);
    assert(three.subrange(0, log.len() as int) =~= log);
    assert(four.subrange(0, log.len() as int) =~= log);
    assert(five.subrange(0, log.len() as int) =~= log);
}

/// The reads of what the tree says of buffers, one after the other.
pub open spec fn buffers_reads(ids: Seq<i64>) -> Seq<ReadOpView>
    decreases ids.len(),
{
    if ids.len() == 0 {
        Seq::empty()
    } else {
        buffers_reads(ids.drop_last()) + buffer_reads(ids.last())
    }
}

proof fn lemma_buffers_reads_append(a: Seq<i64>, b: Seq<i64>)
    ensures
        buffers_reads(a + b) == buffers_reads(a) + buffers_reads(b),
    decreases b.len(),
{
    if b.len() == 0 {
        assert(a + b =~= a);
        assert(buffers_reads(a) + buffers_reads(b) =~= buffers_reads(a));
    } else {
        assert((a + b).drop_last() =~= a + b.drop_last());
        lemma_buffers_reads_append(a, b.drop_last());
        assert(buffers_reads(a + b) =~= buffers_reads(a) + buffers_reads(b));
    }
}

proof fn lemma_buffers_made(
    before: Seq<ReadOpView>,
    middle: Seq<ReadOpView>,
    after: Seq<ReadOpView>,
    ids: Seq<i64>,
    n: int,
    all: bool,
)
    requires
        0 <= n < ids.len(),
        made(before, middle, buffers_reads(ids.take(n)), true),
        made(middle, after, buffer_reads(ids[n]), all),
    ensures
        made(before, after, buffers_reads(ids), false),
        made(before, after, buffers_reads(ids.take(n + 1)), all),
{
    lemma_made_then(before, middle, after, buffers_reads(ids.take(n)), buffer_reads(ids[n]), all);
    assert(ids.take(n + 1).drop_last() =~= ids.take(n));
    lemma_buffers_reads_append(ids.take(n + 1), ids.skip(n + 1));
    assert(ids.take(n + 1) + ids.skip(n + 1) =~= ids);
    lemma_made_up_to(
        before,
        after,
        buffers_reads(ids.take(n + 1)),
        buffers_reads(ids.skip(n + 1)),
        all,
    );
}

fn read_buffer_meta<R: OpReader>(reader: &mut R, buffer_id: i64) -> (r: Result<BufferMeta, ChangelogError>)
    ensures
        final(reader).answers() == old(reader).answers(),
        made(old(reader).log(), final(reader).log(), buffer_reads(buffer_id), r is Ok),
        match buffer_meta(old(reader).answers(), buffer_id) {
            Ok(m) => r matches Ok(meta) && meta@ == m,
            Err(e) => r matches Err(x) && x@ == e,
        },
{
    proof {
        lemma_buffer_reads(reader.log(), buffer_id);
    }
    if buffer_id <= 0 {
        return Err(
            ChangelogError::Refused(
                OpName::PieceTextEdit,
                OpFault::BufferIdNotPositive { buffer_id },
            ),
        );
    }
    let owner_table = read_buffer_text(
        reader,
        buffer_id,
        BufferColumn::OwnerTable,
        CellKind::OwnerTable,
    )?;
    let owner_row_id: i64 = read_buffer_i64(
        reader,
        buffer_id,
        BufferColumn::OwnerRowId,
        CellKind::OwnerRowId,
    )?;
    let owner_column = read_buffer_text(
        reader,
        buffer_id,
        BufferColumn::OwnerColumn,
        CellKind::OwnerColumn,
    )?;
    let author_id: i64 = read_buffer_i64(
        reader,
        buffer_id,
        BufferColumn::AuthorId,
        CellKind::AuthorId,
    )?;
    let len: i64 = read_buffer_i64(
        reader,
        buffer_id,
        BufferColumn::LenBytes,
        CellKind::BufferLen,
    )?;
    if len < 0 || len > 0xffff_ffff {
        return Err(
            storage_failure(
                OpName::PieceTextEdit,
                StorageFault::OutsideU32 {
                    cell: Cell { kind: CellKind::BufferLen, id: buffer_id },
                    value: len,
                },
            ),
        );
    }
    let len_bytes: u32 = len as u32;
    if len_bytes == 0 || len_bytes > MAX_BUFFER_LEN_BYTES {
        return Err(
            ChangelogError::Refused(
                OpName::PieceTextEdit,
                OpFault::BufferLenRange { buffer_id, len_bytes },
            ),
        );
    }
    Ok(
        BufferMeta { id: buffer_id, owner_table, owner_row_id, owner_column, author_id, len_bytes },
    )
}

/// Puts an id in its place among ordered ids, unless it is there.
pub open spec fn insert_id(ids: Seq<i64>, id: i64) -> Seq<i64>
    decreases ids.len(),
{
    if ids.len() == 0 || ids.last() < id {
        ids.push(id)
    } else if ids.last() == id {
        ids
    } else {
        insert_id(ids.drop_last(), id).push(ids.last())
    }
}

/// The buffers that rows lie in, in order.
pub open spec fn buffers_of(coords: Seq<(i64, PieceCoord)>) -> Seq<i64>
    decreases coords.len(),
{
    if coords.len() == 0 {
        Seq::empty()
    } else {
        insert_id(buffers_of(coords.drop_last()), coords.last().1.buffer_id)
    }
}

/// No buffer comes twice among those that rows lie in, and each that a row lies in
/// is there: what the tree says of a buffer is read once.
pub proof fn law_buffers_read_once(coords: Seq<(i64, PieceCoord)>)
    ensures
        forall|i: int, j: int|
            0 <= i < j < buffers_of(coords).len() ==> #[trigger] buffers_of(coords)[i] < #[trigger] buffers_of(
                coords,
            )[j],
        forall|id: i64| #[trigger]
            buffers_of(coords).contains(id) <==> exists|i: int|
                0 <= i < coords.len() && (#[trigger] coords[i]).1.buffer_id == id,
    decreases coords.len(),
{
    let all = buffers_of(coords);
    if coords.len() > 0 {
        let rest = coords.drop_last();
        let earlier = buffers_of(rest);
        let last = coords.last().1.buffer_id;
        law_buffers_read_once(rest);
        lemma_insert_id_ascends(earlier, last);
        assert forall|id: i64| #[trigger] all.contains(id) <==> exists|i: int|
            0 <= i < coords.len() && (#[trigger] coords[i]).1.buffer_id == id by {
            lemma_insert_id_contains(earlier, last, id);
            if earlier.contains(id) {
                let i = choose|i: int| 0 <= i < rest.len() && (#[trigger] rest[i]).1.buffer_id == id;
                assert(coords[i].1.buffer_id == id);
            }
            if id == last {
                assert(coords[coords.len() - 1].1.buffer_id == id);
            }
            if exists|i: int| 0 <= i < coords.len() && (#[trigger] coords[i]).1.buffer_id == id {
                let i = choose|i: int| 0 <= i < coords.len() && (#[trigger] coords[i]).1.buffer_id == id;
                if i < rest.len() {
                    assert(rest[i].1.buffer_id == id);
                }
            }
        }
    }
}

pub proof fn lemma_insert_id_ascends(ids: Seq<i64>, id: i64)
    requires
        forall|i: int, j: int| 0 <= i < j < ids.len() ==> #[trigger] ids[i] < #[trigger] ids[j],
    ensures
        forall|i: int, j: int|
            0 <= i < j < insert_id(ids, id).len() ==> #[trigger] insert_id(ids, id)[i]
                < #[trigger] insert_id(ids, id)[j],
    decreases ids.len(),
{
    if ids.len() > 0 && ids.last() > id {
        let rest = ids.drop_last();
        let t = insert_id(rest, id);
        lemma_insert_id_ascends(rest, id);
        assert forall|i: int| 0 <= i < t.len() implies #[trigger] t[i] < ids.last() by {
            lemma_insert_id_contains(rest, id, t[i]);
            assert(t.contains(t[i]));
            if rest.contains(t[i]) {
                let k = rest.index_of(t[i]);
                assert(ids[k] < ids[ids.len() - 1]);
            }
        }
    }
}

/// A buffer must belong to the document.
pub open spec fn buffer_owner_fault(answers: Answers, address: AddressView, buffer_id: i64) -> Option<
    ErrorView,
> {
    match buffer_meta(answers, buffer_id) {
        Err(e) => Some(e),
        Ok(meta) => if meta.owner != address {
            Some(
                refusal(
                    OpName::PieceTextEdit,
                    OpFaultView::BufferOwner {
                        buffer_id,
                        owner_table: meta.owner.table,
                        owner_row_id: meta.owner.row_id,
                        owner_column: meta.owner.column,
                        table: address.table,
                        row_id: address.row_id,
                        column: address.column,
                    },
                ),
            )
        } else {
            None
        },
    }
}

/// The first buffer at fault.
pub open spec fn owners_fault(answers: Answers, address: AddressView, ids: Seq<i64>) -> Option<ErrorView>
    decreases ids.len(),
{
    if ids.len() == 0 {
        None
    } else {
        match owners_fault(answers, address, ids.drop_last()) {
            Some(e) => Some(e),
            None => buffer_owner_fault(answers, address, ids.last()),
        }
    }
}

/// A row must lie in its buffer.
pub open spec fn row_range_fault(answers: Answers, row_id: i64, coord: PieceCoord) -> Option<ErrorView> {
    let len_bytes = buffer_meta(answers, coord.buffer_id)->Ok_0.len_bytes;
    if coord.end() > u32::MAX {
        Some(refusal(OpName::PieceTextEdit, OpFaultView::RowRangeOverflow { row_id }))
    } else if coord.end() > len_bytes {
        Some(
            refusal(
                OpName::PieceTextEdit,
                OpFaultView::RowPastBuffer {
                    row_id,
                    buffer_id: coord.buffer_id,
                    end: coord.end() as u32,
                    len_bytes,
                },
            ),
        )
    } else {
        None
    }
}

/// The first row at fault.
pub open spec fn ranges_fault(answers: Answers, coords: Seq<(i64, PieceCoord)>) -> Option<ErrorView>
    decreases coords.len(),
{
    if coords.len() == 0 {
        None
    } else {
        match ranges_fault(answers, coords.drop_last()) {
            Some(e) => Some(e),
            None => row_range_fault(answers, coords.last().0, coords.last().1),
        }
    }
}

/// The number of buffers that rows lie in, if all of them belong to the document
/// and the rows lie in them.
pub open spec fn buffers_checked(
    answers: Answers,
    address: AddressView,
    coords: Seq<(i64, PieceCoord)>,
) -> Result<usize, ErrorView> {
    match owners_fault(answers, address, buffers_of(coords)) {
        Some(e) => Err(e),
        None => match ranges_fault(answers, coords) {
            Some(e) => Err(e),
            None => Ok(buffers_of(coords).len() as usize),
        },
    }
}

proof fn lemma_owners_fault_stop(answers: Answers, address: AddressView, ids: Seq<i64>, n: int)
    requires
        0 <= n <= ids.len(),
        owners_fault(answers, address, ids.take(n)) is Some,
    ensures
        owners_fault(answers, address, ids) == owners_fault(answers, address, ids.take(n)),
    decreases ids.len(),
{
    if n == ids.len() {
        assert(ids.take(n) =~= ids);
    } else {
        assert(ids.drop_last().take(n) =~= ids.take(n));
        lemma_owners_fault_stop(answers, address, ids.drop_last(), n);
    }
}

proof fn lemma_ranges_fault_stop(answers: Answers, coords: Seq<(i64, PieceCoord)>, n: int)
    requires
        0 <= n <= coords.len(),
        ranges_fault(answers, coords.take(n)) is Some,
    ensures
        ranges_fault(answers, coords) == ranges_fault(answers, coords.take(n)),
    decreases coords.len(),
{
    if n == coords.len() {
        assert(coords.take(n) =~= coords);
    } else {
        assert(coords.drop_last().take(n) =~= coords.take(n));
        lemma_ranges_fault_stop(answers, coords.drop_last(), n);
    }
}

/// Below ids that are all above one, its place is that among the rest.
proof fn lemma_insert_id_place(ids: Seq<i64>, id: i64, n: int)
    requires
        0 <= n <= ids.len(),
        forall|j: int| n <= j < ids.len() ==> #[trigger] ids[j] > id,
        n == 0 || ids[n - 1] < id,
    ensures
        insert_id(ids, id) == ids.insert(n, id),
    decreases ids.len(),
{
    if n < ids.len() {
        assert(ids.last() > id);
        lemma_insert_id_place(ids.drop_last(), id, n);
        assert(ids.insert(n, id) =~= ids.drop_last().insert(n, id).push(ids.last()));
    } else {
        assert(ids.insert(n, id) =~= ids.push(id));
    }
}

proof fn lemma_insert_id_there(ids: Seq<i64>, id: i64, n: int)
    requires
        0 <= n < ids.len(),
        forall|j: int| n < j < ids.len() ==> #[trigger] ids[j] > id,
        ids[n] == id,
    ensures
        insert_id(ids, id) == ids,
    decreases ids.len(),
{
    if n < ids.len() - 1 {
        assert(ids.last() > id);
        lemma_insert_id_there(ids.drop_last(), id, n);
        assert(ids.drop_last().push(ids.last()) =~= ids);
    }
}

pub proof fn lemma_insert_id_contains(ids: Seq<i64>, id: i64, x: i64)
    ensures
        insert_id(ids, id).contains(x) == (ids.contains(x) || x == id),
    decreases ids.len(),
{
    if ids.len() == 0 || ids.last() < id {
        let t = ids.push(id);
        if ids.contains(x) {
            assert(t[ids.index_of(x)] == x);
        }
        if x == id {
            assert(t[ids.len() as int] == id);
        }
    } else if ids.last() != id {
        let rest = ids.drop_last();
        let t = insert_id(rest, id);
        lemma_insert_id_contains(rest, id, x);
        let u = t.push(ids.last());
        if t.contains(x) {
            assert(u[t.index_of(x)] == x);
        }
        if x == ids.last() {
            assert(u[t.len() as int] == x);
        }
        if ids.contains(x) && x != ids.last() {
            assert(rest[ids.index_of(x)] == x);
        }
        if rest.contains(x) {
            assert(ids[rest.index_of(x)] == x);
        }
        if u.contains(x) && x != ids.last() {
            assert(t[u.index_of(x)] == x);
        }
    } else if x == id {
        assert(ids[ids.len() - 1] == x);
    }
}

proof fn lemma_buffers_of_contains(coords: Seq<(i64, PieceCoord)>, i: int)
    requires
        0 <= i < coords.len(),
    ensures
        buffers_of(coords).contains(coords[i].1.buffer_id),
    decreases coords.len(),
{
    let id = coords[i].1.buffer_id;
    let rest = buffers_of(coords.drop_last());
    lemma_insert_id_contains(rest, coords.last().1.buffer_id, id);
    if i < coords.len() - 1 {
        lemma_buffers_of_contains(coords.drop_last(), i);
        assert(coords.drop_last()[i] == coords[i]);
    }
}

pub(crate) fn add_id(ids: &mut Vec<i64>, id: i64)
    ensures
        final(ids)@ == insert_id(old(ids)@, id),
{
    let mut n: usize = ids.len();
    while n > 0 && ids[n - 1] > id
        invariant
            n <= ids.len(),
            ids@ == old(ids)@,
            forall|j: int| n <= j < ids.len() ==> #[trigger] ids@[j] > id,
        decreases n,
    {
        n = n - 1;
    }
    if n > 0 && ids[n - 1] == id {
        proof {
            lemma_insert_id_there(ids@, id, n - 1);
        }
        return;
    }
    proof {
        lemma_insert_id_place(ids@, id, n as int);
    }
    ids.insert(n, id);
}

/// Checks that the rows that an edit came to lie in buffers of the document.
fn validate_authenticated_piece_buffers<R: OpReader>(
    reader: &mut R,
    address: &PieceTextAddress,
    coords: &Vec<(i64, PieceCoord)>,
) -> (r: Result<usize, ChangelogError>)
    ensures
        final(reader).answers() == old(reader).answers(),
        made(old(reader).log(), final(reader).log(), buffers_reads(buffers_of(coords@)), r is Ok),
        agrees(r, buffers_checked(old(reader).answers(), address@, coords@)),
{
    broadcast use vstd::std_specs::btree::group_btree_axioms;

    let ghost answers = reader.answers();
    let mut buffer_ids: Vec<i64> = Vec::new();
    let mut i: usize = 0;
    while i < coords.len()
        invariant
            i <= coords.len(),
            buffer_ids@ == buffers_of(coords@.take(i as int)),
        decreases coords.len() - i,
    {
        assert(coords@.take(i + 1).drop_last() =~= coords@.take(i as int));
        add_id(&mut buffer_ids, coords[i].1.buffer_id);
        i = i + 1;
    }
    assert(coords@.take(i as int) =~= coords@);
    let mut lengths: BTreeMap<i64, u32> = BTreeMap::new();
    let mut k: usize = 0;
    let ghost log = reader.log();
    proof {
        lemma_made_none(log, buffers_reads(buffer_ids@));
        assert(buffer_ids@.take(0) =~= Seq::empty());
    }
    while k < buffer_ids.len()
        invariant
            k <= buffer_ids.len(),
            answers == reader.answers(),
            answers == old(reader).answers(),
            log == old(reader).log(),
            made(log, reader.log(), buffers_reads(buffer_ids@.take(k as int)), true),
            buffer_ids@ == buffers_of(coords@),
            owners_fault(answers, address@, buffer_ids@.take(k as int)) is None,
            forall|j: int|
                0 <= j < k ==> lengths@.contains_key(#[trigger] buffer_ids@[j])
                    && lengths@[buffer_ids@[j]] == buffer_meta(answers, buffer_ids@[j])->Ok_0.len_bytes,
        decreases buffer_ids.len() - k,
    {
        let buffer_id: i64 = buffer_ids[k];
        proof {
            assert(buffer_ids@.take(k + 1).drop_last() =~= buffer_ids@.take(k as int));
            if owners_fault(answers, address@, buffer_ids@.take(k + 1)) is Some {
                lemma_owners_fault_stop(answers, address@, buffer_ids@, k + 1);
            }
        }
        let ghost middle = reader.log();
        let read = read_buffer_meta(reader, buffer_id);
        proof {
            lemma_buffers_made(log, middle, reader.log(), buffer_ids@, k as int, read is Ok);
        }
        let meta = read?;
        if meta.owner_table != address.table || meta.owner_row_id != address.row_id
            || meta.owner_column != address.column {
            return Err(
                ChangelogError::Refused(
                    OpName::PieceTextEdit,
                    OpFault::BufferOwner {
                        buffer_id,
                        owner_table: meta.owner_table,
                        owner_row_id: meta.owner_row_id,
                        owner_column: meta.owner_column,
                        table: address.table.clone(),
                        row_id: address.row_id,
                        column: address.column.clone(),
                    },
                ),
            );
        }
        lengths.insert(buffer_id, meta.len_bytes);
        k = k + 1;
    }
    assert(buffer_ids@.take(k as int) =~= buffer_ids@);
    let mut n: usize = 0;
    while n < coords.len()
        invariant
            n <= coords.len(),
            answers == reader.answers(),
            answers == old(reader).answers(),
            made(old(reader).log(), reader.log(), buffers_reads(buffers_of(coords@)), true),
            buffer_ids@ == buffers_of(coords@),
            owners_fault(answers, address@, buffer_ids@) is None,
            ranges_fault(answers, coords@.take(n as int)) is None,
            forall|j: int|
                0 <= j < buffer_ids.len() ==> lengths@.contains_key(#[trigger] buffer_ids@[j])
                    && lengths@[buffer_ids@[j]] == buffer_meta(answers, buffer_ids@[j])->Ok_0.len_bytes,
        decreases coords.len() - n,
    {
        let (row_id, coord) = coords[n];
        proof {
            assert(coords@.take(n + 1).drop_last() =~= coords@.take(n as int));
            lemma_buffers_of_contains(coords@, n as int);
            let j = buffer_ids@.index_of(coord.buffer_id);
            assert(lengths@.contains_key(buffer_ids@[j]));
            if ranges_fault(answers, coords@.take(n + 1)) is Some {
                lemma_ranges_fault_stop(answers, coords@, n + 1);
            }
        }
        if let Some(len) = lengths.get(&coord.buffer_id) {
            let len_bytes: u32 = *len;
            let end: u32 = match coord.start_byte.checked_add(coord.len_bytes) {
                Some(end) => end,
                None => {
                    return Err(
                        ChangelogError::Refused(
                            OpName::PieceTextEdit,
                            OpFault::RowRangeOverflow { row_id },
                        ),
                    );
                },
            };
            if end > len_bytes {
                return Err(
                    ChangelogError::Refused(
                        OpName::PieceTextEdit,
                        OpFault::RowPastBuffer {
                            row_id,
                            buffer_id: coord.buffer_id,
                            end,
                            len_bytes,
                        },
                    ),
                );
            }
        }
        n = n + 1;
    }
    assert(coords@.take(n as int) =~= coords@);
    Ok(buffer_ids.len())
}

// ---------- the operation ----------

/// The state of a document that an edit starts from.
pub struct EditTarget {
    pub list_number: i64,
    pub head_id: i64,
    pub tail_id: i64,
    pub next_piece_id: i64,
    pub next_buffer_id: i64,
}

/// The list that an edit is for, if the author may edit the document.
pub open spec fn permitted_list(answers: Answers, checks: EditChecks, envelope: EnvelopeView) -> Result<
    i64,
    ErrorView,
> {
    let address = envelope.address;
    match checks.user_access {
        Err(e) => Err(e@),
        Ok(_) => match checks.only_via_actions {
            Err(e) => Err(e@),
            Ok(_) => match checks.piece_text_columns {
                Err(e) => Err(e@),
                Ok(columns) => if !names_include(columns@, address.column) {
                    Err(
                        refusal(
                            OpName::PieceTextEdit,
                            OpFaultView::NotPieceText {
                                table: address.table,
                                column: address.column,
                            },
                        ),
                    )
                } else {
                    match parent_list_number(answers, address) {
                        Err(e) => Err(e),
                        Ok(list_number) => if list_number <= 0 {
                            Err(
                                refusal(
                                    OpName::PieceTextEdit,
                                    OpFaultView::BadListNumber { list_number },
                                ),
                            )
                        } else {
                            match parent_link_fault(answers, list_number, address) {
                                Some(e) => Err(e),
                                None => match write_acl_fault(checks.write_acl) {
                                    Some(e) => Err(e),
                                    None => Ok(list_number),
                                },
                            }
                        },
                    }
                },
            },
        },
    }
}

/// The state of a document that an edit starts from, if the author may edit it.
/// The counter of buffers is looked at only where the edit inserts something.
pub open spec fn edit_target(answers: Answers, checks: EditChecks, envelope: EnvelopeView) -> Result<
    EditTarget,
    ErrorView,
> {
    match permitted_list(answers, checks, envelope) {
        Err(e) => Err(e),
        Ok(list_number) => match endpoint_id(
            answers,
            KeyView::PieceHead { list_number },
            Cell { kind: CellKind::EditHead, id: list_number },
        ) {
            Err(e) => Err(e),
            Ok(head_id) => match endpoint_id(
                answers,
                KeyView::PieceTail { list_number },
                Cell { kind: CellKind::EditTail, id: list_number },
            ) {
                Err(e) => Err(e),
                Ok(tail_id) => match checks.piece_next_id {
                    Err(e) => Err(e@),
                    Ok(next_piece_id) => if insert_total(envelope.ops) == 0 {
                        Ok(
                            EditTarget {
                                list_number,
                                head_id,
                                tail_id,
                                next_piece_id,
                                next_buffer_id: 1,
                            },
                        )
                    } else {
                        match checks.buffers_next_id {
                            Err(e) => Err(e@),
                            Ok(next_buffer_id) => Ok(
                                EditTarget {
                                    list_number,
                                    head_id,
                                    tail_id,
                                    next_piece_id,
                                    next_buffer_id,
                                },
                            ),
                        }
                    },
                },
            },
        },
    }
}

/// The state that the operations of an edit leave.
pub open spec fn edited(answers: Answers, target: EditTarget, envelope: EnvelopeView, author_id: i64) -> Result<
    EditState,
    ErrorView,
> {
    match start_fault(
        target.list_number,
        target.head_id,
        target.tail_id,
        target.next_piece_id,
        target.next_buffer_id,
    ) {
        Some(f) => Err(ErrorView::Within(OpName::PieceTextEdit, Box::new(ErrorView::Overlay(f)))),
        None => {
            let (state, r) = start_state(
                answers,
                envelope.address,
                target.list_number,
                author_id,
                target.head_id,
                target.tail_id,
                target.next_piece_id,
                target.next_buffer_id,
            ).steps(envelope.ops);
            match r {
                Err(e) => Err(ErrorView::Within(OpName::PieceTextEdit, Box::new(e@))),
                Ok(_) => Ok(state),
            }
        },
    }
}

/// The reads that the operations of an edit make.
pub open spec fn edited_reads(answers: Answers, target: EditTarget, envelope: EnvelopeView, author_id: i64) -> Seq<
    ReadOpView,
> {
    match start_fault(
        target.list_number,
        target.head_id,
        target.tail_id,
        target.next_piece_id,
        target.next_buffer_id,
    ) {
        Some(_) => Seq::empty(),
        None => start_state(
            answers,
            envelope.address,
            target.list_number,
            author_id,
            target.head_id,
            target.tail_id,
            target.next_piece_id,
            target.next_buffer_id,
        ).steps(envelope.ops).0.doc.log,
    }
}

/// The reads that lead to the document that an edit is for.
pub open spec fn target_reads(answers: Answers, envelope: EnvelopeView) -> Seq<ReadOpView> {
    match parent_list_number(answers, envelope.address) {
        Err(_) => seq![ReadOpView::Key(address_key(envelope.address))],
        Ok(list_number) => document_reads(envelope.address, list_number),
    }
}

/// Ranges by row.
pub open spec fn coords_by_id(coords: Seq<(i64, PieceCoord)>) -> Map<i64, PieceCoord>
    decreases coords.len(),
{
    if coords.len() == 0 {
        Map::empty()
    } else {
        coords_by_id(coords.drop_last()).insert(coords.last().0, coords.last().1)
    }
}

/// The writes of a planned edit, and how much it looked at.
pub open spec fn edit_outcome(
    answers: Answers,
    list_number: i64,
    address: AddressView,
    output: OutputView,
) -> Result<(Seq<BatchOpView>, PieceTextEditExecutionMetrics), ErrorView> {
    let coords = output.trace.rows;
    match buffers_checked(answers, address, coords) {
        Err(e) => Err(e),
        Ok(buffer_rows_read) => match checked_writes(
            address,
            list_number,
            output,
            coords_by_id(coords),
        ) {
            Err(e) => Err(e),
            Ok(writes) => Ok(
                (
                    writes,
                    PieceTextEditExecutionMetrics {
                        piece_rows_read: coords.len() as usize,
                        buffer_rows_read,
                        inserted_piece_rows: output.piece_inserts.len() as usize,
                        updated_piece_rows: output.piece_updates.len() as usize,
                        inserted_buffer_rows: output.buffer_inserts.len() as usize,
                        write_ops: writes.len() as usize,
                    },
                ),
            ),
        },
    }
}

/// What an entry that asks for an edit amounts to.
pub open spec fn edit_operation(answers: Answers, checks: EditChecks, entry: ChangelogEntry) -> Result<
    (Seq<BatchOpView>, PieceTextEditExecutionMetrics),
    ErrorView,
> {
    match decode_message(entry.message@) {
        Err(e) => Err(e),
        Ok(envelope) => match edit_target(answers, checks, envelope) {
            Err(e) => Err(e),
            Ok(target) => match edited(answers, target, envelope, entry.uid as i64) {
                Err(e) => Err(e),
                Ok(state) => edit_outcome(
                    answers,
                    target.list_number,
                    envelope.address,
                    state.output(),
                ),
            },
        },
    }
}

/// The reads of an edit: the way to the document, what its operations come to, and
/// then once each buffer that they came to.
pub open spec fn edit_reads(answers: Answers, checks: EditChecks, entry: ChangelogEntry) -> Seq<ReadOpView> {
    match decode_message(entry.message@) {
        Err(_) => Seq::empty(),
        Ok(envelope) => target_reads(answers, envelope) + (match edit_target(answers, checks, envelope) {
            Err(_) => Seq::empty(),
            Ok(target) => edited_reads(answers, target, envelope, entry.uid as i64),
        }) + (match edit_target(answers, checks, envelope) {
            Err(_) => Seq::empty(),
            Ok(target) => match edited(answers, target, envelope, entry.uid as i64) {
                Err(_) => Seq::empty(),
                Ok(state) => buffers_reads(buffers_of(state.output().trace.rows)),
            },
        }),
    }
}

/// Plans the operations of an edit over the tree.
fn run_edit<R: OpReader>(reader: &mut R, target: EditTarget, envelope: &PieceTextEditEnvelopeV1, author_id: i64) -> (r:
    Result<PlannerOutput, ChangelogError>)
    ensures
        final(reader).answers() == old(reader).answers(),
        final(reader).log() == old(reader).log() + edited_reads(
            old(reader).answers(),
            target,
            envelope@,
            author_id,
        ),
        match edited(old(reader).answers(), target, envelope@, author_id) {
            Ok(state) => r matches Ok(output) && output@ == state.output(),
            Err(e) => r matches Err(x) && x@ == e,
        },
{
    proof {
        assert(reader.log() + Seq::<ReadOpView>::empty() =~= reader.log());
    }
    let mut planner = match IndexedPieceEditPlanner::new(
        reader,
        envelope.address.duplicate(),
        target.list_number,
        author_id,
        target.head_id,
        target.tail_id,
        target.next_piece_id,
        target.next_buffer_id,
    ) {
        Ok(planner) => planner,
        Err(e) => {
            return Err(within(OpName::PieceTextEdit, e));
        },
    };
    match planner.apply_ops(envelope.edit.ops.as_slice()) {
        Ok(()) => {},
        Err(e) => {
            planner.release();
            return Err(within(OpName::PieceTextEdit, e));
        },
    }
    Ok(planner.into_output())
}

/// Reads where an edit starts, after the checks that come before.
fn read_target<R: OpReader>(reader: &mut R, checks: EditChecks, envelope: &PieceTextEditEnvelopeV1) -> (r: Result<
    EditTarget,
    ChangelogError,
>)
    ensures
        final(reader).answers() == old(reader).answers(),
        made(
            old(reader).log(),
            final(reader).log(),
            target_reads(old(reader).answers(), envelope@),
            r is Ok,
        ),
        agrees(r, edit_target(old(reader).answers(), checks, envelope@)),
{
    proof {
        let log = reader.log();
        lemma_made_none(log, target_reads(reader.answers(), envelope@));
        lemma_made_one(log, ReadOpView::Key(address_key(envelope.address@)));
        if let Ok(list_number) = parent_list_number(reader.answers(), envelope.address@) {
            lemma_document_reads(log, envelope.address@, list_number);
        }
    }
    checks.user_access?;
    checks.only_via_actions?;
    let columns = checks.piece_text_columns?;
    if !includes_name(&columns, &envelope.address.column) {
        return Err(
            ChangelogError::Refused(
                OpName::PieceTextEdit,
                OpFault::NotPieceText {
                    table: envelope.address.table.clone(),
                    column: envelope.address.column.clone(),
                },
            ),
        );
    }
    let list_number: i64 = read_parent_list_number(reader, &envelope.address)?;
    if list_number <= 0 {
        return Err(
            ChangelogError::Refused(OpName::PieceTextEdit, OpFault::BadListNumber { list_number }),
        );
    }
    authenticate_piece_text_parent(reader, list_number, &envelope.address)?;
    enforce_parent_write_acl(checks.write_acl)?;
    let has_inserts = envelope.edit.insert_count() > 0;
    let head_id: i64 = read_raw_i64_key(
        reader,
        StorageKey::PieceHead { list_number },
        Cell { kind: CellKind::EditHead, id: list_number },
    )?;
    let tail_id: i64 = read_raw_i64_key(
        reader,
        StorageKey::PieceTail { list_number },
        Cell { kind: CellKind::EditTail, id: list_number },
    )?;
    let next_piece_id: i64 = checks.piece_next_id?;
    let next_buffer_id: i64 = if has_inserts {
        checks.buffers_next_id?
    } else {
        1
    };
    Ok(EditTarget { list_number, head_id, tail_id, next_piece_id, next_buffer_id })
}

fn originals_of(coords: &Vec<(i64, PieceCoord)>) -> (m: BTreeMap<i64, PieceCoord>)
    ensures
        m@ == coords_by_id(coords@),
{
    broadcast use vstd::std_specs::btree::group_btree_axioms;

    let mut m: BTreeMap<i64, PieceCoord> = BTreeMap::new();
    let mut i: usize = 0;
    assert(m@ =~= Map::empty());
    while i < coords.len()
        invariant
            i <= coords.len(),
            m@ == coords_by_id(coords@.take(i as int)),
        decreases coords.len() - i,
    {
        assert(coords@.take(i + 1).drop_last() =~= coords@.take(i as int));
        m.insert(coords[i].0, coords[i].1);
        i = i + 1;
    }
    assert(coords@.take(i as int) =~= coords@);
    m
}

/// The edit of a document.
pub struct PieceTextEditOp;

impl PieceTextEditOp {
    /// Verifies an entry that asks for an edit, and gives the writes.
    pub fn extract_and_validate<R: OpReader>(entry: &ChangelogEntry, reader: &mut R, checks: EditChecks) -> (r: Result<
        OpVerifyResult,
        ChangelogError,
    >)
        ensures
            final(reader).answers() == old(reader).answers(),
            made(
                old(reader).log(),
                final(reader).log(),
                edit_reads(old(reader).answers(), checks, *entry),
                r is Ok,
            ),
            match edit_operation(old(reader).answers(), checks, *entry) {
                Ok((writes, _)) => r matches Ok(result) && result.writes(writes),
                Err(e) => r matches Err(x) && x@ == e,
            },
    {
        let (result, _) = Self::extract_and_validate_with_metrics(entry, reader, checks)?;
        Ok(result)
    }

    /// The same, with how much the edit looked at.
    pub fn extract_and_validate_with_metrics<R: OpReader>(
        entry: &ChangelogEntry,
        reader: &mut R,
        checks: EditChecks,
    ) -> (r: Result<(OpVerifyResult, PieceTextEditExecutionMetrics), ChangelogError>)
        ensures
            final(reader).answers() == old(reader).answers(),
            made(
                old(reader).log(),
                final(reader).log(),
                edit_reads(old(reader).answers(), checks, *entry),
                r is Ok,
            ),
            match edit_operation(old(reader).answers(), checks, *entry) {
                Ok((writes, m)) => r matches Ok((result, metrics)) && result.writes(writes) && metrics
                    == m,
                Err(e) => r matches Err(x) && x@ == e,
            },
    {
        let ghost answers = reader.answers();
        let ghost log = reader.log();
        let ghost wanted = edit_reads(answers, checks, *entry);
        proof {
            lemma_made_none(log, wanted);
        }
        let envelope = PieceTextEditEnvelopeV1::decode_from_entry(entry)?;
        let ghost way = target_reads(answers, envelope@);
        let found = read_target(reader, checks, &envelope);
        let ghost middle = reader.log();
        proof {
            assert(way + Seq::<ReadOpView>::empty() =~= way);
            if found is Err {
                lemma_made_up_to(log, middle, way, Seq::empty(), false);
            }
        }
        let target = found?;
        let list_number: i64 = target.list_number;
        let ghost steps = edited_reads(answers, target, envelope@, entry.uid as i64);
        let planned = run_edit(reader, target, &envelope, entry.uid as i64);
        let ghost after = reader.log();
        proof {
            assert(after.subrange(0, middle.len() as int) =~= middle);
            assert(after.subrange(0, after.len() as int) =~= after);
            assert(made(middle, after, steps, true));
            lemma_made_then(log, middle, after, way, steps, true);
            assert(way + steps + Seq::<ReadOpView>::empty() =~= way + steps);
        }
        let output = planned?;
        let coords = &output.trace.authenticated_piece_coords;
        let original_coords = originals_of(coords);
        let checked = validate_authenticated_piece_buffers(reader, &envelope.address, coords);
        proof {
            let buffers = buffers_reads(buffers_of(coords@));
            lemma_made_then(log, after, reader.log(), way + steps, buffers, checked is Ok);
            assert(wanted == way + steps + buffers);
        }
        let buffer_rows_read: usize = checked?;
        let batch_ops = materialise_planner_output(
            &envelope.address,
            list_number,
            &output,
            &original_coords,
        )?;
        let metrics = PieceTextEditExecutionMetrics {
            piece_rows_read: coords.len(),
            buffer_rows_read,
            inserted_piece_rows: output.piece_inserts.len(),
            updated_piece_rows: output.piece_updates.len(),
            inserted_buffer_rows: output.buffer_inserts.len(),
            write_ops: batch_ops.len(),
        };
        Ok((OpVerifyResult::of_writes(batch_ops), metrics))
    }
}

} // verus!
