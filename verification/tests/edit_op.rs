//! Edits of documents, verified against the tree.

use std::cell::RefCell;
use std::collections::BTreeMap;

use changelog_core::changelog::{root_tree_path, ChangelogEntry, ChangelogError, LogMessage};
use changelog_core::faults::OpType;
use changelog_core::ops::piece_text_edit_op::{
    enforce_parent_write_acl, materialise_planner_output, AclChecks, EditChecks, PieceTextEditOp,
};
use changelog_core::ops::TraceStep;
use changelog_core::piece_text::{
    BufferCoord, InsertedBufferManifest, PieceCoord, PieceTextAddress, PieceTextEditEnvelopeV1,
    PieceTextEditItemManifest, PieceTextEditManifest, PIECE_TEXT_ENVELOPE_VERSION_V1,
};
use changelog_core::piece_text_planner::{PieceRow, PieceRowUpdate, PlannerOutput};
use changelog_core::piece_text_resolver::{
    buffer_column_key, piece_column_key, BufferColumn, PieceColumn,
};
use changelog_core::storage::{
    buffer_table_name, i64_from_be, i64_to_be, piece_table_name, BatchOp, IndexValue, OpReader,
    ProvenRead, ReadOp, StorageKey, StoredValue,
};

const UID: u32 = 7;
const TABLE: &str = "docs";
const ROW_ID: i64 = 42;
const COLUMN: &str = "body";
const LIST_NUMBER: i64 = 5;
const PIECES: i64 = 64;

#[derive(Default)]
struct FakeReader {
    kv: BTreeMap<String, (StorageKey, StoredValue)>,
    reads: RefCell<Vec<ReadOp>>,
}

fn index_entry(table: String, column: &str, value: i64, row_id: i64) -> StorageKey {
    StorageKey::Index { table, column: column.to_string(), value: IndexValue::Int(value), row_id }
}

fn buffer_index_key(buffer_id: i64, row_id: i64) -> StorageKey {
    index_entry(piece_table_name(), "buffer_id", buffer_id, row_id)
}

impl FakeReader {
    fn put(&mut self, key: StorageKey, value: StoredValue) {
        self.kv.insert(format!("{key:?}"), (key, value));
    }

    fn get(&self, key: &StorageKey) -> Option<StoredValue> {
        self.kv.get(&format!("{key:?}")).map(|(_, v)| v.clone())
    }

    fn put_piece_row(&mut self, row: &PieceRow) {
        for (column, value) in [
            (PieceColumn::ListNumber, row.list_number),
            (PieceColumn::PrevId, row.prev_id),
            (PieceColumn::NextId, row.next_id),
            (PieceColumn::BufferId, row.coord.buffer_id),
            (PieceColumn::StartByte, row.coord.start_byte as i64),
            (PieceColumn::LenBytes, row.coord.len_bytes as i64),
            (PieceColumn::Tombstone, if row.coord.tombstone { 1 } else { 0 }),
        ] {
            self.put(piece_column_key(row.id, column), StoredValue::Int(value));
        }
        self.put(
            index_entry(piece_table_name(), "list_number", row.list_number, row.id),
            StoredValue::RowId(row.id),
        );
        self.put(buffer_index_key(row.coord.buffer_id, row.id), StoredValue::RowId(row.id));
    }

    fn put_buffer_meta(&mut self, buffer_id: i64, len_bytes: u32, author_id: i64) {
        for (column, value) in [
            (BufferColumn::OwnerTable, StoredValue::Text(TABLE.to_string())),
            (BufferColumn::OwnerRowId, StoredValue::Int(ROW_ID)),
            (BufferColumn::OwnerColumn, StoredValue::Text(COLUMN.to_string())),
            (BufferColumn::AuthorId, StoredValue::Int(author_id)),
            (BufferColumn::LenBytes, StoredValue::Int(len_bytes as i64)),
        ] {
            self.put(buffer_column_key(buffer_id, column), value);
        }
    }

    fn setup_base(&mut self) {
        self.put(cell_key(), StoredValue::Int(LIST_NUMBER));
        self.put(StorageKey::PieceParent { list_number: LIST_NUMBER }, StoredValue::Parent(address()));
        self.put(StorageKey::PieceHead { list_number: LIST_NUMBER }, StoredValue::Raw(i64_to_be(0)));
        self.put(StorageKey::PieceTail { list_number: LIST_NUMBER }, StoredValue::Raw(i64_to_be(0)));
    }

    fn next_id(&self, table: String) -> i64 {
        match self.get(&StorageKey::NextId { table }) {
            Some(StoredValue::Raw(bytes)) => i64_from_be(&bytes),
            _ => 1,
        }
    }
}

fn address() -> PieceTextAddress {
    PieceTextAddress { table: TABLE.to_string(), row_id: ROW_ID, column: COLUMN.to_string() }
}

fn cell_key() -> StorageKey {
    StorageKey::Column { table: TABLE.to_string(), row_id: ROW_ID, column: COLUMN.to_string() }
}

impl OpReader for FakeReader {
    fn read(&mut self, op: ReadOp) -> Result<ProvenRead, ChangelogError> {
        self.reads.borrow_mut().push(op.clone());
        let mut results: Vec<(StorageKey, StoredValue)> = match &op {
            ReadOp::Key(key) | ReadOp::Bytes(key) => {
                self.kv.get(&format!("{key:?}")).cloned().into_iter().collect()
            }
            ReadOp::IndexValue { table, column, value } => self
                .kv
                .values()
                .filter(|(k, _)| match k {
                    StorageKey::Index { table: t, column: c, value: v, .. } => {
                        t == table && c == column && v == value
                    }
                    _ => false,
                })
                .cloned()
                .collect(),
        };
        results.sort_by_key(|(k, _)| match k {
            StorageKey::Index { row_id, .. } => *row_id,
            _ => 0,
        });
        Ok(ProvenRead { results })
    }
}

/// All that is checked outside the library is in order.
fn checks(reader: &FakeReader) -> EditChecks {
    EditChecks {
        user_access: Ok(()),
        only_via_actions: Ok(()),
        piece_text_columns: Ok(vec![COLUMN.to_string()]),
        write_acl: AclChecks { has_rule: Ok(true), values: Ok(()), verdict: Ok(()) },
        piece_next_id: Ok(reader.next_id(piece_table_name())),
        buffers_next_id: Ok(reader.next_id(buffer_table_name())),
    }
}

fn envelope() -> PieceTextEditEnvelopeV1 {
    envelope_with_ops(vec![PieceTextEditItemManifest::Insert {
        at: BufferCoord::document_start(),
        inserted: InsertedBufferManifest {
            len_bytes: 4,
            ciphertext_len: 3,
            ciphertext_value_hash: [0xAB; 32],
        },
    }])
}

fn envelope_with_ops(ops: Vec<PieceTextEditItemManifest>) -> PieceTextEditEnvelopeV1 {
    PieceTextEditEnvelopeV1 {
        version: PIECE_TEXT_ENVELOPE_VERSION_V1,
        op_id: [9u8; 16],
        address: PieceTextAddress {
            table: TABLE.to_string(),
            row_id: ROW_ID,
            column: COLUMN.to_string(),
        },
        edit: PieceTextEditManifest { ops },
    }
}

fn insert_item(at: BufferCoord, len_bytes: u32, marker: u8) -> PieceTextEditItemManifest {
    PieceTextEditItemManifest::Insert {
        at,
        inserted: InsertedBufferManifest {
            len_bytes,
            ciphertext_len: len_bytes + 16,
            ciphertext_value_hash: [marker; 32],
        },
    }
}

fn entry(env: &PieceTextEditEnvelopeV1) -> ChangelogEntry {
    ChangelogEntry {
        timestamp: 1,
        uid: UID,
        parent_change: 0,
        message: LogMessage {
            op_type: OpType::PieceTextEdit,
            tree_path: root_tree_path(),
            entries: vec![env.changelog_entry_kv().unwrap()],
        },
        sig_ref: 0,
        parent_clc: [0u8; 32],
        signature: Vec::new(),
    }
}

fn seed_piece_state(
    reader: &mut FakeReader,
    rows: &[PieceRow],
    head_id: i64,
    tail_id: i64,
    pre_piece_next_id: i64,
    pre_buffers_next_id: i64,
    buffer_len_bytes: u32,
) {
    for row in rows {
        reader.put_piece_row(row);
    }
    reader.put_buffer_meta(1, buffer_len_bytes, UID as i64);
    reader.put(
        StorageKey::PieceHead { list_number: LIST_NUMBER },
        StoredValue::Raw(i64_to_be(head_id)),
    );
    reader.put(
        StorageKey::PieceTail { list_number: LIST_NUMBER },
        StoredValue::Raw(i64_to_be(tail_id)),
    );
    reader.put(
        StorageKey::NextId { table: piece_table_name() },
        StoredValue::Raw(i64_to_be(pre_piece_next_id)),
    );
    reader.put(
        StorageKey::NextId { table: buffer_table_name() },
        StoredValue::Raw(i64_to_be(pre_buffers_next_id)),
    );
}

fn piece_row(
    id: i64,
    prev_id: i64,
    next_id: i64,
    start_byte: u32,
    len_bytes: u32,
    tombstone: bool,
) -> PieceRow {
    piece_row_buf(id, prev_id, next_id, 1, start_byte, len_bytes, tombstone)
}

fn piece_row_buf(
    id: i64,
    prev_id: i64,
    next_id: i64,
    buffer_id: i64,
    start_byte: u32,
    len_bytes: u32,
    tombstone: bool,
) -> PieceRow {
    PieceRow {
        id,
        list_number: LIST_NUMBER,
        prev_id,
        next_id,
        coord: PieceCoord {
            buffer_id,
            start_byte,
            len_bytes,
            tombstone,
        },
    }
}

fn seed_doc(
    reader: &mut FakeReader,
    rows: &[PieceRow],
    buffers: &[(i64, u32)],
    head_id: i64,
    tail_id: i64,
    pre_piece_next_id: i64,
    pre_buffers_next_id: i64,
) {
    for row in rows {
        reader.put_piece_row(row);
    }
    for (id, len) in buffers {
        reader.put_buffer_meta(*id, *len, UID as i64);
    }
    reader.put(
        StorageKey::PieceHead { list_number: LIST_NUMBER },
        StoredValue::Raw(i64_to_be(head_id)),
    );
    reader.put(
        StorageKey::PieceTail { list_number: LIST_NUMBER },
        StoredValue::Raw(i64_to_be(tail_id)),
    );
    reader.put(
        StorageKey::NextId { table: piece_table_name() },
        StoredValue::Raw(i64_to_be(pre_piece_next_id)),
    );
    reader.put(
        StorageKey::NextId { table: buffer_table_name() },
        StoredValue::Raw(i64_to_be(pre_buffers_next_id)),
    );
}

fn writes_piece_row(ops: &[BatchOp], id: i64) -> bool {
    ops.iter().any(|op| {
        *op.key() == piece_column_key(id, PieceColumn::ListNumber)
            || *op.key() == piece_column_key(id, PieceColumn::Tombstone)
            || *op.key() == piece_column_key(id, PieceColumn::NextId)
            || *op.key() == piece_column_key(id, PieceColumn::PrevId)
    })
}

fn verified_write_ops(env: &PieceTextEditEnvelopeV1, reader: &mut FakeReader) -> Vec<BatchOp> {
    let checked = checks(reader);
    let result = PieceTextEditOp::extract_and_validate(
        &entry(env),
        reader,
        checked,
    )
    .unwrap();
    let TraceStep::Write(ops) = &result.write_steps[0];
    ops.clone()
}

fn put_value(ops: &[BatchOp], key: StorageKey) -> StoredValue {
    ops.iter()
        .find_map(|op| match op {
            BatchOp::Put { key: k, value } if *k == key => Some(value.clone()),
            _ => None,
        })
        .unwrap_or_else(|| panic!("missing put for key {key:?}"))
}

fn assert_stored_i64_put(ops: &[BatchOp], key: StorageKey, expected: i64) {
    assert_eq!(put_value(ops, key), StoredValue::Int(expected));
}

fn assert_raw_i64_put(ops: &[BatchOp], key: StorageKey, expected: i64) {
    assert_eq!(put_value(ops, key), StoredValue::Raw(i64_to_be(expected)));
}

#[test]
fn piece_text_edit_op_accepts_insert_into_empty_document() {
    let env = envelope();
    let mut reader = FakeReader::default();
    reader.setup_base();

    let checked = checks(&reader);
    let result = PieceTextEditOp::extract_and_validate(
        &entry(&env),
        &mut reader,
        checked,
    )
    .unwrap();

    let TraceStep::Write(ops) = &result.write_steps[0];
    assert!(ops.iter().any(|op| {
        matches!(
            op,
            BatchOp::Put { key, value }
                if key == &StorageKey::PieceHead { list_number: LIST_NUMBER }
                    && value == &StoredValue::Raw(i64_to_be(1))
        )
    }));
    assert!(ops.iter().any(|op| {
        matches!(
            op,
            BatchOp::Put { key, value }
                if key == &buffer_column_key(1, BufferColumn::Contents)
                    && value == &StoredValue::Raw(vec![0xAB; 32])
        )
    }));
}

#[test]
fn piece_text_edit_op_appends_after_existing_piece() {
    let env = envelope_with_ops(vec![insert_item(
        BufferCoord {
            buffer_id: 1,
            byte_pos: 4,
        },
        4,
        0xBB,
    )]);
    let mut reader = FakeReader::default();
    reader.setup_base();
    seed_piece_state(
        &mut reader,
        &[piece_row(1, 0, 0, 0, 4, false)],
        1,
        1,
        2,
        2,
        4,
    );

    let ops = verified_write_ops(&env, &mut reader);

    assert_stored_i64_put(
        &ops,
        piece_column_key(1, PieceColumn::NextId),
        2,
    );
    assert_stored_i64_put(
        &ops,
        piece_column_key(2, PieceColumn::PrevId),
        1,
    );
    assert_stored_i64_put(
        &ops,
        piece_column_key(2, PieceColumn::NextId),
        0,
    );
    assert_stored_i64_put(
        &ops,
        piece_column_key(2, PieceColumn::BufferId),
        2,
    );
    assert_raw_i64_put(&ops, StorageKey::PieceTail { list_number: LIST_NUMBER }, 2);
    assert_eq!(
        put_value(&ops, buffer_column_key(2, BufferColumn::Contents)),
        StoredValue::Raw(vec![0xBB; 32])
    );
}

#[test]
fn piece_text_edit_op_splits_insert_inside_a_piece() {
    let env = envelope_with_ops(vec![insert_item(
        BufferCoord {
            buffer_id: 1,
            byte_pos: 4,
        },
        4,
        0xCC,
    )]);
    let mut reader = FakeReader::default();
    reader.setup_base();
    seed_piece_state(
        &mut reader,
        &[piece_row(1, 0, 0, 0, 8, false)],
        1,
        1,
        2,
        2,
        8,
    );

    let ops = verified_write_ops(&env, &mut reader);

    assert_stored_i64_put(
        &ops,
        piece_column_key(1, PieceColumn::LenBytes),
        4,
    );
    assert_stored_i64_put(
        &ops,
        piece_column_key(1, PieceColumn::NextId),
        2,
    );
    assert_stored_i64_put(
        &ops,
        piece_column_key(2, PieceColumn::PrevId),
        1,
    );
    assert_stored_i64_put(
        &ops,
        piece_column_key(2, PieceColumn::NextId),
        3,
    );
    assert_stored_i64_put(
        &ops,
        piece_column_key(2, PieceColumn::BufferId),
        2,
    );
    assert_stored_i64_put(
        &ops,
        piece_column_key(3, PieceColumn::PrevId),
        2,
    );
    assert_stored_i64_put(
        &ops,
        piece_column_key(3, PieceColumn::NextId),
        0,
    );
    assert_stored_i64_put(
        &ops,
        piece_column_key(3, PieceColumn::BufferId),
        1,
    );
    assert_stored_i64_put(
        &ops,
        piece_column_key(3, PieceColumn::StartByte),
        4,
    );
    assert_stored_i64_put(
        &ops,
        piece_column_key(3, PieceColumn::LenBytes),
        4,
    );
    assert_raw_i64_put(&ops, StorageKey::PieceTail { list_number: LIST_NUMBER }, 3);
}

#[test]
fn piece_text_edit_op_same_coordinate_inserts_render_newest_first() {
    let env = envelope_with_ops(vec![
        insert_item(BufferCoord::document_start(), 4, 0x01),
        insert_item(BufferCoord::document_start(), 4, 0x02),
        insert_item(BufferCoord::document_start(), 4, 0x03),
    ]);
    let mut reader = FakeReader::default();
    reader.setup_base();

    let ops = verified_write_ops(&env, &mut reader);

    assert_stored_i64_put(
        &ops,
        piece_column_key(3, PieceColumn::PrevId),
        0,
    );
    assert_stored_i64_put(
        &ops,
        piece_column_key(3, PieceColumn::NextId),
        2,
    );
    assert_stored_i64_put(
        &ops,
        piece_column_key(2, PieceColumn::PrevId),
        3,
    );
    assert_stored_i64_put(
        &ops,
        piece_column_key(2, PieceColumn::NextId),
        1,
    );
    assert_stored_i64_put(
        &ops,
        piece_column_key(1, PieceColumn::PrevId),
        2,
    );
    assert_stored_i64_put(
        &ops,
        piece_column_key(1, PieceColumn::NextId),
        0,
    );
    assert_raw_i64_put(&ops, StorageKey::PieceHead { list_number: LIST_NUMBER }, 3);
    assert_raw_i64_put(&ops, StorageKey::PieceTail { list_number: LIST_NUMBER }, 1);
}

#[test]
fn piece_text_edit_op_insert_inside_tombstone_back_clamps_to_live_predecessor() {
    let env = envelope_with_ops(vec![insert_item(
        BufferCoord {
            buffer_id: 1,
            byte_pos: 8,
        },
        4,
        0xDD,
    )]);
    let mut reader = FakeReader::default();
    reader.setup_base();
    seed_piece_state(
        &mut reader,
        &[
            piece_row(1, 0, 2, 0, 4, false),
            piece_row(2, 1, 3, 4, 4, true),
            piece_row(3, 2, 0, 8, 4, false),
        ],
        1,
        3,
        4,
        2,
        12,
    );

    let ops = verified_write_ops(&env, &mut reader);

    assert_stored_i64_put(
        &ops,
        piece_column_key(4, PieceColumn::PrevId),
        1,
    );
    assert_stored_i64_put(
        &ops,
        piece_column_key(4, PieceColumn::NextId),
        2,
    );
    assert_stored_i64_put(
        &ops,
        piece_column_key(1, PieceColumn::NextId),
        4,
    );
    assert_stored_i64_put(
        &ops,
        piece_column_key(2, PieceColumn::PrevId),
        4,
    );
}

#[test]
fn piece_text_edit_op_insert_after_row_changed_earlier_in_same_edit() {
    let env = envelope_with_ops(vec![
        insert_item(
            BufferCoord {
                buffer_id: 1,
                byte_pos: 4,
            },
            4,
            0x11,
        ),
        insert_item(
            BufferCoord {
                buffer_id: 1,
                byte_pos: 4,
            },
            4,
            0x22,
        ),
    ]);
    let mut reader = FakeReader::default();
    reader.setup_base();
    seed_piece_state(
        &mut reader,
        &[piece_row(1, 0, 0, 0, 8, false)],
        1,
        1,
        2,
        2,
        8,
    );

    let ops = verified_write_ops(&env, &mut reader);

    assert_stored_i64_put(
        &ops,
        piece_column_key(1, PieceColumn::LenBytes),
        4,
    );
    assert_stored_i64_put(
        &ops,
        piece_column_key(1, PieceColumn::NextId),
        4,
    );
    assert_stored_i64_put(
        &ops,
        piece_column_key(4, PieceColumn::PrevId),
        1,
    );
    assert_stored_i64_put(
        &ops,
        piece_column_key(4, PieceColumn::NextId),
        2,
    );
    assert_stored_i64_put(
        &ops,
        piece_column_key(4, PieceColumn::BufferId),
        3,
    );
    assert_stored_i64_put(
        &ops,
        piece_column_key(2, PieceColumn::PrevId),
        4,
    );
    assert_stored_i64_put(
        &ops,
        piece_column_key(2, PieceColumn::NextId),
        3,
    );
    assert_stored_i64_put(
        &ops,
        piece_column_key(3, PieceColumn::PrevId),
        2,
    );
    assert_stored_i64_put(
        &ops,
        piece_column_key(3, PieceColumn::NextId),
        0,
    );
    assert_raw_i64_put(&ops, StorageKey::PieceTail { list_number: LIST_NUMBER }, 3);
}

fn delete_item(start: BufferCoord, end: BufferCoord) -> PieceTextEditItemManifest {
    PieceTextEditItemManifest::Delete { start, end }
}

#[test]
fn piece_text_edit_op_deletes_whole_piece_flips_tombstone() {
    let env = envelope_with_ops(vec![delete_item(
        BufferCoord {
            buffer_id: 1,
            byte_pos: 0,
        },
        BufferCoord {
            buffer_id: 1,
            byte_pos: 4,
        },
    )]);
    let mut reader = FakeReader::default();
    reader.setup_base();
    seed_piece_state(
        &mut reader,
        &[piece_row(1, 0, 0, 0, 4, false)],
        1,
        1,
        2,
        2,
        4,
    );

    let ops = verified_write_ops(&env, &mut reader);

    assert_stored_i64_put(
        &ops,
        piece_column_key(1, PieceColumn::Tombstone),
        1,
    );
    assert!(!ops.iter().any(|op| {
        *op.key() == piece_column_key(2, PieceColumn::ListNumber)
    }));
}

#[test]
fn piece_text_edit_op_ragged_left_delete_splits_piece() {
    let env = envelope_with_ops(vec![delete_item(
        BufferCoord {
            buffer_id: 1,
            byte_pos: 4,
        },
        BufferCoord {
            buffer_id: 1,
            byte_pos: 12,
        },
    )]);
    let mut reader = FakeReader::default();
    reader.setup_base();
    seed_piece_state(
        &mut reader,
        &[piece_row(1, 0, 0, 0, 12, false)],
        1,
        1,
        2,
        2,
        12,
    );

    let ops = verified_write_ops(&env, &mut reader);

    assert_stored_i64_put(
        &ops,
        piece_column_key(1, PieceColumn::LenBytes),
        4,
    );
    assert_stored_i64_put(
        &ops,
        piece_column_key(1, PieceColumn::NextId),
        2,
    );
    assert_stored_i64_put(
        &ops,
        piece_column_key(2, PieceColumn::StartByte),
        4,
    );
    assert_stored_i64_put(
        &ops,
        piece_column_key(2, PieceColumn::LenBytes),
        8,
    );
    assert_stored_i64_put(
        &ops,
        piece_column_key(2, PieceColumn::Tombstone),
        1,
    );
    assert_stored_i64_put(
        &ops,
        piece_column_key(2, PieceColumn::PrevId),
        1,
    );
    assert_stored_i64_put(
        &ops,
        piece_column_key(2, PieceColumn::NextId),
        0,
    );
    assert_raw_i64_put(&ops, StorageKey::PieceTail { list_number: LIST_NUMBER }, 2);
}

#[test]
fn piece_text_edit_op_rejects_inverted_delete_range() {
    let env = envelope_with_ops(vec![delete_item(
        BufferCoord {
            buffer_id: 1,
            byte_pos: 8,
        },
        BufferCoord {
            buffer_id: 1,
            byte_pos: 4,
        },
    )]);
    let mut reader = FakeReader::default();
    reader.setup_base();
    seed_piece_state(
        &mut reader,
        &[piece_row(1, 0, 0, 0, 12, false)],
        1,
        1,
        2,
        2,
        12,
    );

    let checked = checks(&reader);
    let err = PieceTextEditOp::extract_and_validate(
        &entry(&env),
        &mut reader,
        checked,
    )
    .expect_err("inverted delete range must be rejected");
    let msg = err.message();
    assert!(
        msg.contains("delete start resolved past delete end"),
        "{msg}"
    );
}

#[test]
fn piece_text_edit_op_ragged_center_delete_splits_piece() {
    let env = envelope_with_ops(vec![delete_item(
        BufferCoord {
            buffer_id: 1,
            byte_pos: 4,
        },
        BufferCoord {
            buffer_id: 1,
            byte_pos: 8,
        },
    )]);
    let mut reader = FakeReader::default();
    reader.setup_base();
    seed_piece_state(
        &mut reader,
        &[piece_row(1, 0, 0, 0, 12, false)],
        1,
        1,
        2,
        2,
        12,
    );

    let ops = verified_write_ops(&env, &mut reader);

    assert_stored_i64_put(
        &ops,
        piece_column_key(1, PieceColumn::LenBytes),
        4,
    );
    assert_stored_i64_put(
        &ops,
        piece_column_key(1, PieceColumn::NextId),
        2,
    );
    assert_stored_i64_put(
        &ops,
        piece_column_key(2, PieceColumn::StartByte),
        4,
    );
    assert_stored_i64_put(
        &ops,
        piece_column_key(2, PieceColumn::LenBytes),
        4,
    );
    assert_stored_i64_put(
        &ops,
        piece_column_key(2, PieceColumn::Tombstone),
        1,
    );
    assert_stored_i64_put(
        &ops,
        piece_column_key(2, PieceColumn::NextId),
        3,
    );
    assert_stored_i64_put(
        &ops,
        piece_column_key(3, PieceColumn::StartByte),
        8,
    );
    assert_stored_i64_put(
        &ops,
        piece_column_key(3, PieceColumn::LenBytes),
        4,
    );
    assert_stored_i64_put(
        &ops,
        piece_column_key(3, PieceColumn::Tombstone),
        0,
    );
    assert_raw_i64_put(&ops, StorageKey::PieceTail { list_number: LIST_NUMBER }, 3);
}

#[test]
fn piece_text_edit_op_ragged_right_delete_splits_piece() {
    let env = envelope_with_ops(vec![delete_item(
        BufferCoord {
            buffer_id: 1,
            byte_pos: 0,
        },
        BufferCoord {
            buffer_id: 1,
            byte_pos: 8,
        },
    )]);
    let mut reader = FakeReader::default();
    reader.setup_base();
    seed_piece_state(
        &mut reader,
        &[piece_row(1, 0, 0, 0, 12, false)],
        1,
        1,
        2,
        2,
        12,
    );

    let ops = verified_write_ops(&env, &mut reader);

    assert_stored_i64_put(
        &ops,
        piece_column_key(1, PieceColumn::LenBytes),
        8,
    );
    assert_stored_i64_put(
        &ops,
        piece_column_key(1, PieceColumn::Tombstone),
        1,
    );
    assert_stored_i64_put(
        &ops,
        piece_column_key(1, PieceColumn::NextId),
        2,
    );
    assert_stored_i64_put(
        &ops,
        piece_column_key(2, PieceColumn::StartByte),
        8,
    );
    assert_stored_i64_put(
        &ops,
        piece_column_key(2, PieceColumn::LenBytes),
        4,
    );
    assert_stored_i64_put(
        &ops,
        piece_column_key(2, PieceColumn::Tombstone),
        0,
    );
    assert_raw_i64_put(&ops, StorageKey::PieceTail { list_number: LIST_NUMBER }, 2);
}

#[test]
fn piece_text_edit_op_deletes_across_multiple_pieces() {
    let env = envelope_with_ops(vec![delete_item(
        BufferCoord {
            buffer_id: 1,
            byte_pos: 4,
        },
        BufferCoord {
            buffer_id: 3,
            byte_pos: 4,
        },
    )]);
    let mut reader = FakeReader::default();
    reader.setup_base();
    seed_doc(
        &mut reader,
        &[
            piece_row_buf(1, 0, 2, 1, 0, 8, false),
            piece_row_buf(2, 1, 3, 2, 0, 4, false),
            piece_row_buf(3, 2, 0, 3, 0, 8, false),
        ],
        &[(1, 8), (2, 4), (3, 8)],
        1,
        3,
        4,
        4,
    );

    let ops = verified_write_ops(&env, &mut reader);

    assert_stored_i64_put(
        &ops,
        piece_column_key(1, PieceColumn::LenBytes),
        4,
    );
    assert_stored_i64_put(
        &ops,
        piece_column_key(1, PieceColumn::NextId),
        4,
    );
    assert_stored_i64_put(
        &ops,
        piece_column_key(4, PieceColumn::BufferId),
        1,
    );
    assert_stored_i64_put(
        &ops,
        piece_column_key(4, PieceColumn::StartByte),
        4,
    );
    assert_stored_i64_put(
        &ops,
        piece_column_key(4, PieceColumn::Tombstone),
        1,
    );
    assert_stored_i64_put(
        &ops,
        piece_column_key(4, PieceColumn::PrevId),
        1,
    );
    assert_stored_i64_put(
        &ops,
        piece_column_key(4, PieceColumn::NextId),
        2,
    );
    assert_stored_i64_put(
        &ops,
        piece_column_key(2, PieceColumn::Tombstone),
        1,
    );
    assert_stored_i64_put(
        &ops,
        piece_column_key(2, PieceColumn::PrevId),
        4,
    );
    assert_stored_i64_put(
        &ops,
        piece_column_key(5, PieceColumn::BufferId),
        3,
    );
    assert_stored_i64_put(
        &ops,
        piece_column_key(5, PieceColumn::StartByte),
        4,
    );
    assert_stored_i64_put(
        &ops,
        piece_column_key(5, PieceColumn::Tombstone),
        0,
    );
    assert_stored_i64_put(
        &ops,
        piece_column_key(3, PieceColumn::NextId),
        5,
    );
    assert_stored_i64_put(
        &ops,
        piece_column_key(3, PieceColumn::Tombstone),
        1,
    );
    assert_raw_i64_put(&ops, StorageKey::PieceTail { list_number: LIST_NUMBER }, 5);
}

#[test]
fn piece_text_edit_op_overlapping_sequential_deletes_idempotent_in_overlap() {
    let env = envelope_with_ops(vec![
        delete_item(
            BufferCoord {
                buffer_id: 1,
                byte_pos: 0,
            },
            BufferCoord {
                buffer_id: 1,
                byte_pos: 8,
            },
        ),
        delete_item(
            BufferCoord {
                buffer_id: 1,
                byte_pos: 4,
            },
            BufferCoord {
                buffer_id: 3,
                byte_pos: 4,
            },
        ),
    ]);
    let mut reader = FakeReader::default();
    reader.setup_base();
    seed_doc(
        &mut reader,
        &[
            piece_row_buf(1, 0, 2, 1, 0, 8, false),
            piece_row_buf(2, 1, 3, 2, 0, 4, false),
            piece_row_buf(3, 2, 0, 3, 0, 8, false),
        ],
        &[(1, 8), (2, 4), (3, 8)],
        1,
        3,
        4,
        4,
    );

    let ops = verified_write_ops(&env, &mut reader);

    assert_stored_i64_put(
        &ops,
        piece_column_key(1, PieceColumn::Tombstone),
        1,
    );
    assert_stored_i64_put(
        &ops,
        piece_column_key(1, PieceColumn::LenBytes),
        8,
    );
    assert_stored_i64_put(
        &ops,
        piece_column_key(2, PieceColumn::Tombstone),
        1,
    );
    assert_stored_i64_put(
        &ops,
        piece_column_key(3, PieceColumn::LenBytes),
        4,
    );
    assert_stored_i64_put(
        &ops,
        piece_column_key(3, PieceColumn::Tombstone),
        1,
    );
    assert_stored_i64_put(
        &ops,
        piece_column_key(4, PieceColumn::BufferId),
        3,
    );
    assert_stored_i64_put(
        &ops,
        piece_column_key(4, PieceColumn::StartByte),
        4,
    );
    assert_stored_i64_put(
        &ops,
        piece_column_key(4, PieceColumn::Tombstone),
        0,
    );
    assert!(!writes_piece_row(&ops, 5));
    assert_raw_i64_put(&ops, StorageKey::PieceTail { list_number: LIST_NUMBER }, 4);
}

#[test]
fn piece_text_edit_op_delete_then_insert_at_deleted_boundary() {
    let env = envelope_with_ops(vec![
        delete_item(
            BufferCoord {
                buffer_id: 1,
                byte_pos: 4,
            },
            BufferCoord {
                buffer_id: 1,
                byte_pos: 8,
            },
        ),
        insert_item(
            BufferCoord {
                buffer_id: 1,
                byte_pos: 4,
            },
            4,
            0xFE,
        ),
    ]);
    let mut reader = FakeReader::default();
    reader.setup_base();
    seed_piece_state(
        &mut reader,
        &[piece_row(1, 0, 0, 0, 12, false)],
        1,
        1,
        2,
        2,
        12,
    );

    let ops = verified_write_ops(&env, &mut reader);

    assert_stored_i64_put(
        &ops,
        piece_column_key(4, PieceColumn::BufferId),
        2,
    );
    assert_stored_i64_put(
        &ops,
        piece_column_key(4, PieceColumn::PrevId),
        1,
    );
    assert_stored_i64_put(
        &ops,
        piece_column_key(4, PieceColumn::NextId),
        2,
    );
    assert_stored_i64_put(
        &ops,
        piece_column_key(1, PieceColumn::NextId),
        4,
    );
    assert_stored_i64_put(
        &ops,
        piece_column_key(2, PieceColumn::PrevId),
        4,
    );
    assert_eq!(
        put_value(&ops, buffer_column_key(2, BufferColumn::Contents)),
        StoredValue::Raw(vec![0xFE; 32])
    );
    assert_raw_i64_put(&ops, StorageKey::PieceTail { list_number: LIST_NUMBER }, 3);
}

#[test]
fn piece_text_edit_op_delete_inside_all_tombstoned_chain_is_noop() {
    let env = envelope_with_ops(vec![delete_item(
        BufferCoord {
            buffer_id: 5,
            byte_pos: 4,
        },
        BufferCoord {
            buffer_id: 5,
            byte_pos: 12,
        },
    )]);
    let mut reader = FakeReader::default();
    reader.setup_base();
    seed_doc(
        &mut reader,
        &[
            piece_row_buf(1, 0, 2, 5, 0, 8, true),
            piece_row_buf(2, 1, 0, 5, 8, 8, true),
        ],
        &[(5, 16)],
        1,
        2,
        3,
        6,
    );

    let ops = verified_write_ops(&env, &mut reader);
    assert!(
        ops.is_empty(),
        "all-tombstoned delete must be a no-op: {ops:?}"
    );
}

#[test]
fn piece_text_edit_op_delete_clamps_through_tombstone_runs() {
    let env = envelope_with_ops(vec![delete_item(
        BufferCoord {
            buffer_id: 1,
            byte_pos: 4,
        },
        BufferCoord {
            buffer_id: 3,
            byte_pos: 4,
        },
    )]);
    let mut reader = FakeReader::default();
    reader.setup_base();
    seed_doc(
        &mut reader,
        &[
            piece_row_buf(1, 0, 2, 1, 0, 8, true),
            piece_row_buf(2, 1, 3, 2, 0, 4, false),
            piece_row_buf(3, 2, 0, 3, 0, 8, true),
        ],
        &[(1, 8), (2, 4), (3, 8)],
        1,
        3,
        4,
        4,
    );

    let ops = verified_write_ops(&env, &mut reader);

    assert_stored_i64_put(
        &ops,
        piece_column_key(2, PieceColumn::Tombstone),
        1,
    );
    assert!(!writes_piece_row(&ops, 4));
    assert!(!ops
        .iter()
        .any(|op| *op.key() == StorageKey::PieceTail { list_number: LIST_NUMBER }));
}

#[test]
fn piece_text_edit_op_uses_indexed_coord_reads_not_full_list_snapshot() {
    let mut reader = FakeReader::default();
    reader.setup_base();
    for id in 1..=PIECES {
        let row = PieceRow {
            id,
            list_number: LIST_NUMBER,
            prev_id: if id == 1 { 0 } else { id - 1 },
            next_id: if id == PIECES { 0 } else { id + 1 },
            coord: PieceCoord {
                buffer_id: 1,
                start_byte: ((id - 1) * 4) as u32,
                len_bytes: 4,
                tombstone: false,
            },
        };
        reader.put_piece_row(&row);
    }
    reader.put_buffer_meta(1, (PIECES * 4) as u32, UID as i64);
    reader.put(
        StorageKey::PieceHead { list_number: LIST_NUMBER },
        StoredValue::Raw(i64_to_be(1)),
    );
    reader.put(
        StorageKey::PieceTail { list_number: LIST_NUMBER },
        StoredValue::Raw(i64_to_be(PIECES)),
    );
    reader.put(
        StorageKey::NextId { table: piece_table_name() },
        StoredValue::Raw(i64_to_be(PIECES + 1)),
    );
    reader.put(
        StorageKey::NextId { table: buffer_table_name() },
        StoredValue::Raw(i64_to_be(2)),
    );

    let env = envelope();
    let checked = checks(&reader);
    let result = PieceTextEditOp::extract_and_validate(
        &entry(&env),
        &mut reader,
        checked,
    )
    .expect("edit over a valid document must verify");
    let TraceStep::Write(_) = &result.write_steps[0];

    let reads = reader.reads.borrow();
    let offending: Vec<&ReadOp> = reads
        .iter()
        .filter(|op| match op {
            ReadOp::IndexValue { column, .. } => column == "list_number",
            ReadOp::Key(_) | ReadOp::Bytes(_) => false,
        })
        .collect();
    assert!(
        offending.is_empty(),
        "an edit must not read the whole list; found {} such scan(s): {offending:?}",
        offending.len()
    );
}

#[test]
fn piece_text_edit_op_rejects_parent_mapping_mismatch() {
    let env = envelope();
    let mut reader = FakeReader::default();
    reader.setup_base();
    reader.put(
        StorageKey::PieceParent { list_number: LIST_NUMBER },
        StoredValue::Parent(PieceTextAddress {
            table: TABLE.to_string(),
            row_id: ROW_ID + 1,
            column: COLUMN.to_string(),
        }),
    );

    let checked = checks(&reader);
    let err = PieceTextEditOp::extract_and_validate(
        &entry(&env),
        &mut reader,
        checked,
    )
    .unwrap_err()
    .message();
    assert!(err.contains("piece_coords_parent_key"), "{err}");
}

#[test]
fn piece_text_edit_op_rejects_cross_list_buffer_index_row() {
    let env = envelope_with_ops(vec![insert_item(
        BufferCoord {
            buffer_id: 1,
            byte_pos: 0,
        },
        4,
        0xCC,
    )]);
    let mut reader = FakeReader::default();
    reader.setup_base();
    let index = buffer_index_key(1, 99);
    reader.put(index, StoredValue::RowId(99));
    reader.put(
        piece_column_key(99, PieceColumn::ListNumber),
        StoredValue::Int(LIST_NUMBER + 1),
    );
    reader.put(
        piece_column_key(99, PieceColumn::PrevId),
        StoredValue::Int(0),
    );
    reader.put(
        piece_column_key(99, PieceColumn::NextId),
        StoredValue::Int(0),
    );
    reader.put(
        piece_column_key(99, PieceColumn::BufferId),
        StoredValue::Int(1),
    );
    reader.put(
        piece_column_key(99, PieceColumn::StartByte),
        StoredValue::Int(0),
    );
    reader.put(
        piece_column_key(99, PieceColumn::LenBytes),
        StoredValue::Int(4),
    );
    reader.put(
        piece_column_key(99, PieceColumn::Tombstone),
        StoredValue::Int(0),
    );

    let checked = checks(&reader);
    let err = PieceTextEditOp::extract_and_validate(
        &entry(&env),
        &mut reader,
        checked,
    )
    .unwrap_err()
    .message();
    assert!(err.contains("belongs to list"), "{err}");
}

fn delete_envelope(start: BufferCoord, end: BufferCoord) -> PieceTextEditEnvelopeV1 {
    PieceTextEditEnvelopeV1 {
        version: PIECE_TEXT_ENVELOPE_VERSION_V1,
        op_id: [9u8; 16],
        address: PieceTextAddress {
            table: TABLE.to_string(),
            row_id: ROW_ID,
            column: COLUMN.to_string(),
        },
        edit: PieceTextEditManifest {
            ops: vec![PieceTextEditItemManifest::Delete { start, end }],
        },
    }
}

fn expect_rejected(env: &PieceTextEditEnvelopeV1) -> String {
    let mut reader = FakeReader::default();
    reader.setup_base();
    let checked = checks(&reader);
    PieceTextEditOp::extract_and_validate(
        &entry(env),
        &mut reader,
        checked,
    )
    .unwrap_err()
    .message()
}

#[test]
fn piece_text_edit_op_rejects_unaligned_insert_at() {
    let mut env = envelope();
    if let PieceTextEditItemManifest::Insert { at, .. } = &mut env.edit.ops[0] {
        *at = BufferCoord {
            buffer_id: 5,
            byte_pos: 2,
        };
    }
    let err = expect_rejected(&env);
    assert!(err.contains("multiple of 4"), "{err}");
}

#[test]
fn piece_text_edit_op_rejects_unaligned_inserted_len_bytes() {
    let mut env = envelope();
    if let PieceTextEditItemManifest::Insert { inserted, .. } = &mut env.edit.ops[0] {
        inserted.len_bytes = 6;
    }
    let err = expect_rejected(&env);
    assert!(err.contains("multiple of 4"), "{err}");
}

#[test]
fn piece_text_edit_op_rejects_unaligned_delete_start() {
    let env = delete_envelope(
        BufferCoord {
            buffer_id: 5,
            byte_pos: 2,
        },
        BufferCoord {
            buffer_id: 5,
            byte_pos: 4,
        },
    );
    let err = expect_rejected(&env);
    assert!(err.contains("multiple of 4"), "{err}");
}

#[test]
fn piece_text_edit_op_rejects_unaligned_delete_end() {
    let env = delete_envelope(
        BufferCoord::document_start(),
        BufferCoord {
            buffer_id: 5,
            byte_pos: 6,
        },
    );
    let err = expect_rejected(&env);
    assert!(err.contains("multiple of 4"), "{err}");
}

#[test]
fn piece_text_edit_op_rejects_unaligned_preexisting_row() {
    let env = envelope_with_ops(vec![insert_item(
        BufferCoord {
            buffer_id: 1,
            byte_pos: 0,
        },
        4,
        0xCC,
    )]);
    let mut reader = FakeReader::default();
    reader.setup_base();
    let index = buffer_index_key(1, 77);
    reader.put(index, StoredValue::RowId(77));
    for (col, val) in [
        (PieceColumn::ListNumber, LIST_NUMBER),
        (PieceColumn::PrevId, 0),
        (PieceColumn::NextId, 0),
        (PieceColumn::BufferId, 1),
        (PieceColumn::StartByte, 0),
        (PieceColumn::LenBytes, 5),
        (PieceColumn::Tombstone, 0),
    ] {
        reader.put(piece_column_key(77, col), StoredValue::Int(val));
    }

    let checked = checks(&reader);
    let err = PieceTextEditOp::extract_and_validate(
        &entry(&env),
        &mut reader,
        checked,
    )
    .unwrap_err()
    .message();
    assert!(err.contains("UTF-32 aligned"), "{err}");
}

#[test]
fn piece_text_edit_op_rejects_duplicate_materialised_write_keys() {
    let output = PlannerOutput {
        piece_updates: vec![
            PieceRowUpdate {
                id: 77,
                prev_id: Some(1),
                next_id: None,
                coord: None,
            },
            PieceRowUpdate {
                id: 77,
                prev_id: Some(2),
                next_id: None,
                coord: None,
            },
        ],
        ..Default::default()
    };
    let original_coords = BTreeMap::new();

    let err = materialise_planner_output(&envelope().address, LIST_NUMBER, &output, &original_coords)
        .unwrap_err()
        .message();

    assert!(err.contains("duplicate write key"), "{err}");
}

#[test]
fn piece_text_edit_op_accepts_aligned_multiscalar_insert() {
    let mut env = envelope();
    if let PieceTextEditItemManifest::Insert { inserted, .. } = &mut env.edit.ops[0] {
        inserted.len_bytes = 8;
    }
    let mut reader = FakeReader::default();
    reader.setup_base();

    let checked = checks(&reader);
    let result = PieceTextEditOp::extract_and_validate(
        &entry(&env),
        &mut reader,
        checked,
    )
    .unwrap();

    let TraceStep::Write(ops) = &result.write_steps[0];
    assert!(ops.iter().any(|op| matches!(
        op,
        BatchOp::Put { key, .. } if key == &StorageKey::PieceHead { list_number: LIST_NUMBER }
    )));
}

#[test]
fn piece_text_edit_op_reports_metrics_for_empty_document() {
    let env = envelope();
    let mut reader = FakeReader::default();
    reader.setup_base();

    let checked = checks(&reader);
    let (_, metrics) = PieceTextEditOp::extract_and_validate_with_metrics(
        &entry(&env),
        &mut reader,
        checked,
    )
    .unwrap();

    assert_eq!(metrics.piece_rows_read, 0);
    assert_eq!(metrics.buffer_rows_read, 0);
    assert_eq!(metrics.inserted_piece_rows, 1);
    assert_eq!(metrics.inserted_buffer_rows, 1);
    assert!(metrics.write_ops > 0);
}

impl FakeReader {
    fn apply(&mut self, ops: &[BatchOp]) {
        for op in ops {
            match op {
                BatchOp::Put { key, value } => self.put(key.clone(), value.clone()),
                BatchOp::Delete { key } => {
                    self.kv.remove(&format!("{key:?}"));
                }
            }
        }
    }

    fn endpoint(&self, key: StorageKey) -> i64 {
        match self.get(&key) {
            Some(StoredValue::Raw(bytes)) => i64_from_be(&bytes),
            other => panic!("{other:?}"),
        }
    }

    /// The rows of the chain from its head: buffer, start, length and whether it is deleted.
    fn chain(&self) -> Vec<(i64, i64, i64, i64)> {
        let column = |id: i64, column: PieceColumn| match self.get(&piece_column_key(id, column)) {
            Some(StoredValue::Int(i)) => i,
            other => panic!("{other:?}"),
        };
        let mut rows = vec![];
        let mut last = 0;
        let mut id = self.endpoint(StorageKey::PieceHead { list_number: LIST_NUMBER });
        while id != 0 {
            assert_eq!(column(id, PieceColumn::PrevId), last);
            let buffer_id = column(id, PieceColumn::BufferId);
            assert_eq!(self.get(&buffer_index_key(buffer_id, id)), Some(StoredValue::RowId(id)));
            rows.push((
                buffer_id,
                column(id, PieceColumn::StartByte),
                column(id, PieceColumn::LenBytes),
                column(id, PieceColumn::Tombstone),
            ));
            last = id;
            id = column(id, PieceColumn::NextId);
        }
        assert_eq!(self.endpoint(StorageKey::PieceTail { list_number: LIST_NUMBER }), last);
        rows
    }
}

#[test]
fn writes_of_an_edit_store_the_edited_chain() {
    let mut reader = FakeReader::default();
    reader.setup_base();
    let start = BufferCoord::document_start();
    let ops = verified_write_ops(&envelope_with_ops(vec![insert_item(start, 12, 1)]), &mut reader);
    reader.apply(&ops);
    assert_eq!(reader.chain(), vec![(1, 0, 12, 0)]);
    let at = |buffer_id: i64, byte_pos: u32| BufferCoord { buffer_id, byte_pos };
    let ops = verified_write_ops(&envelope_with_ops(vec![insert_item(at(1, 4), 8, 2)]), &mut reader);
    reader.apply(&ops);
    assert_eq!(reader.chain(), vec![(1, 0, 4, 0), (2, 0, 8, 0), (1, 4, 8, 0)]);
    let ops = verified_write_ops(&delete_envelope(at(2, 4), at(1, 8)), &mut reader);
    reader.apply(&ops);
    assert_eq!(
        reader.chain(),
        vec![(1, 0, 4, 0), (2, 0, 4, 0), (2, 4, 4, 1), (1, 4, 4, 1), (1, 8, 4, 0)]
    );
    assert_eq!(reader.next_id(piece_table_name()), 6);
    assert_eq!(reader.next_id(buffer_table_name()), 3);
}

/// A document of one row, with its tree changed.
fn refusal(change: impl Fn(&mut FakeReader)) -> String {
    let mut reader = FakeReader::default();
    reader.setup_base();
    seed_piece_state(&mut reader, &[piece_row(10, 0, 0, 0, 8, false)], 10, 10, 11, 2, 8);
    change(&mut reader);
    let env = envelope_with_ops(vec![insert_item(BufferCoord { buffer_id: 1, byte_pos: 4 }, 4, 1)]);
    let checked = checks(&reader);
    PieceTextEditOp::extract_and_validate(&entry(&env), &mut reader, checked)
        .unwrap_err()
        .message()
}

fn drop_key(reader: &mut FakeReader, key: StorageKey) {
    reader.kv.remove(&format!("{key:?}"));
}

#[test]
fn edits_of_the_tree_are_refused_for_these_reasons() {
    let list_number = LIST_NUMBER;
    assert_eq!(
        refusal(|r| r.put(cell_key(), StoredValue::Int(0))),
        "piece_text_edit: parent PieceText cell has invalid list_number 0"
    );
    assert_eq!(
        refusal(|r| r.put(cell_key(), StoredValue::Text("5".to_string()))),
        "piece_text_edit: parent PieceText cell is not an integer"
    );
    assert_eq!(
        refusal(|r| drop_key(r, cell_key())),
        "piece_text_edit: parent PieceText cell docs/42/body is absent"
    );
    assert_eq!(
        refusal(|r| drop_key(r, StorageKey::PieceParent { list_number })),
        "piece_text_edit: piece_coords_parent_key(5) is missing"
    );
    assert_eq!(
        refusal(|r| {
            let mut other = address();
            other.row_id = 43;
            r.put(StorageKey::PieceParent { list_number }, StoredValue::Parent(other));
        }),
        "piece_text_edit: piece_coords_parent_key(5) points to (docs, 43, body) but envelope addresses (docs, 42, body)"
    );
    assert_eq!(
        refusal(|r| drop_key(r, StorageKey::PieceHead { list_number })),
        "piece_text_edit: head key is missing"
    );
    assert_eq!(
        refusal(|r| r.put(StorageKey::PieceTail { list_number }, StoredValue::Raw(vec![1]))),
        "piece_text_edit: tail key has 1 bytes, expected 8"
    );
    assert_eq!(
        refusal(|r| drop_key(r, buffer_column_key(1, BufferColumn::OwnerTable))),
        "piece_text_edit: _piecetext_buffers row 1 column 'owner_table' is absent"
    );
    assert_eq!(
        refusal(|r| r.put(buffer_column_key(1, BufferColumn::OwnerColumn), StoredValue::Int(1))),
        "piece_text_edit: _piecetext_buffers.owner_column row 1 is not a string"
    );
    assert_eq!(
        refusal(|r| r.put(buffer_column_key(1, BufferColumn::OwnerRowId), StoredValue::Int(41))),
        "piece_text_edit: buffer 1 owner address (docs, 41, body) does not match envelope (docs, 42, body)"
    );
    assert_eq!(
        refusal(|r| r.put(buffer_column_key(1, BufferColumn::LenBytes), StoredValue::Int(-1))),
        "piece_text_edit: _piecetext_buffers row 1.len_bytes -1 is outside u32 range"
    );
    assert_eq!(
        refusal(|r| r.put(buffer_column_key(1, BufferColumn::LenBytes), StoredValue::Int(0))),
        "piece_text_edit: _piecetext_buffers row 1.len_bytes 0 is outside 1..=4194304"
    );
    assert_eq!(
        refusal(|r| r.put(buffer_column_key(1, BufferColumn::LenBytes), StoredValue::Int(4))),
        "piece_text_edit: _piecetext_pieces row 10 range exceeds buffer 1 len_bytes (8 > 4)"
    );
}

#[test]
fn edits_need_a_column_of_pieces_and_access() {
    let mut reader = FakeReader::default();
    reader.setup_base();
    let mut elsewhere = checks(&reader);
    elsewhere.piece_text_columns = Ok(vec!["title".to_string()]);
    assert_eq!(
        PieceTextEditOp::extract_and_validate(&entry(&envelope()), &mut reader, elsewhere)
            .unwrap_err()
            .message(),
        "piece_text_edit: column 'docs.body' is not declared as PieceText"
    );
    let mut denied = checks(&reader);
    denied.write_acl.verdict = Err(ChangelogError::Generic("denied".to_string()));
    assert_eq!(
        PieceTextEditOp::extract_and_validate(&entry(&envelope()), &mut reader, denied)
            .unwrap_err()
            .message(),
        "denied"
    );
}

#[test]
fn rules_for_writing_are_asked_in_order() {
    let said = |text: &str| ChangelogError::Generic(text.to_string());
    let none = AclChecks { has_rule: Ok(false), values: Err(said("absent")), verdict: Err(said("denied")) };
    assert!(enforce_parent_write_acl(none).is_ok());
    let unread = AclChecks { has_rule: Ok(true), values: Err(said("absent")), verdict: Err(said("denied")) };
    assert_eq!(enforce_parent_write_acl(unread).unwrap_err().message(), "absent");
    let denied = AclChecks { has_rule: Ok(true), values: Ok(()), verdict: Err(said("denied")) };
    assert_eq!(enforce_parent_write_acl(denied).unwrap_err().message(), "denied");
    let unknown = AclChecks { has_rule: Err(said("no rule read")), values: Ok(()), verdict: Ok(()) };
    assert_eq!(enforce_parent_write_acl(unknown).unwrap_err().message(), "no rule read");
}

#[test]
fn metadata_of_a_buffer_is_read_once() {
    let mut reader = FakeReader::default();
    reader.setup_base();
    for (id, prev_id, next_id, start_byte) in [(1, 0, 2, 0), (2, 1, 3, 8), (3, 2, 0, 16)] {
        reader.put_piece_row(&PieceRow {
            id,
            list_number: LIST_NUMBER,
            prev_id,
            next_id,
            coord: PieceCoord { buffer_id: 3, start_byte, len_bytes: 8, tombstone: false },
        });
    }
    reader.put_buffer_meta(3, 24, UID as i64);
    for (key, id) in [
        (StorageKey::PieceHead { list_number: LIST_NUMBER }, 1),
        (StorageKey::PieceTail { list_number: LIST_NUMBER }, 3),
        (StorageKey::NextId { table: piece_table_name() }, 4),
        (StorageKey::NextId { table: buffer_table_name() }, 4),
    ] {
        reader.put(key, StoredValue::Raw(i64_to_be(id)));
    }
    let env = envelope_with_ops(vec![PieceTextEditItemManifest::Delete {
        start: BufferCoord { buffer_id: 3, byte_pos: 4 },
        end: BufferCoord { buffer_id: 3, byte_pos: 20 },
    }]);
    let checked = checks(&reader);
    PieceTextEditOp::extract_and_validate(&entry(&env), &mut reader, checked).unwrap();

    let made: Vec<ReadOp> = reader
        .reads
        .borrow()
        .iter()
        .filter(|op| match op {
            ReadOp::Key(StorageKey::Column { table, .. }) => *table == buffer_table_name(),
            _ => false,
        })
        .cloned()
        .collect();
    assert_eq!(made.len(), 5);
    for column in [
        BufferColumn::OwnerTable,
        BufferColumn::OwnerRowId,
        BufferColumn::OwnerColumn,
        BufferColumn::AuthorId,
        BufferColumn::LenBytes,
    ] {
        assert!(made.contains(&ReadOp::Key(buffer_column_key(3, column))), "{made:?}");
    }
}
