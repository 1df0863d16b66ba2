//! Cleanups of deleted rows, verified against the tree.

use std::cell::RefCell;
use std::collections::BTreeMap;

use changelog_core::changelog::{root_tree_path, ChangelogEntry, ChangelogError, LogMessage};
use changelog_core::faults::{OpFault, OpName, OpType};
use changelog_core::ops::piece_text_cleanup_pieces_op::{
    materialise_run_writes, CleanupChecks, PieceTextCleanupPiecesOp,
};
use changelog_core::ops::{ensure_no_duplicate_write_keys, OpContext, TraceStep};
use changelog_core::piece_text::{PieceCoord, PieceTextAddress, PIECE_TEXT_UTF32_BYTES_PER_SCALAR};
use changelog_core::piece_text_cleanup::{
    PieceTextCleanupPiecesEnvelopeV1, PieceTextCleanupRunV1, PIECE_TEXT_CLEANUP_ENVELOPE_VERSION_V1,
};
use changelog_core::piece_text_planner::PieceRow;
use changelog_core::piece_text_resolver::{piece_column_key, PieceColumn};
use changelog_core::storage::{
    i64_from_be, i64_to_be, piece_table_name, BatchOp, IndexValue, OpReader, ProvenRead, ReadOp,
    StorageKey, StoredValue,
};

const TABLE: &str = "docs";
const ROW_ID: i64 = 42;
const COLUMN: &str = "body";
const LIST_NUMBER: i64 = 7;
const OP_ID: i64 = 99;

#[derive(Default)]
struct FakeReader {
    kv: BTreeMap<String, (StorageKey, StoredValue)>,
    reads: RefCell<Vec<ReadOp>>,
}

fn index_entry(column: &str, value: i64, row_id: i64) -> StorageKey {
    StorageKey::Index {
        table: piece_table_name(),
        column: column.to_string(),
        value: IndexValue::Int(value),
        row_id,
    }
}

fn cell_key() -> StorageKey {
    StorageKey::Column { table: TABLE.to_string(), row_id: ROW_ID, column: COLUMN.to_string() }
}

impl FakeReader {
    fn put(&mut self, key: StorageKey, value: StoredValue) {
        self.kv.insert(format!("{key:?}"), (key, value));
    }

    fn setup_base(&mut self, head: i64, tail: i64) {
        self.put(cell_key(), StoredValue::Int(LIST_NUMBER));
        self.put(StorageKey::PieceParent { list_number: LIST_NUMBER }, StoredValue::Parent(address()));
        self.put(
            StorageKey::PieceHead { list_number: LIST_NUMBER },
            StoredValue::Raw(i64_to_be(head)),
        );
        self.put(
            StorageKey::PieceTail { list_number: LIST_NUMBER },
            StoredValue::Raw(i64_to_be(tail)),
        );
    }

    fn put_piece(&mut self, id: i64, prev_id: i64, next_id: i64, tombstone: bool) {
        self.put_piece_in_list(id, LIST_NUMBER, prev_id, next_id, tombstone, id);
    }

    fn put_piece_in_list(
        &mut self,
        id: i64,
        list_number: i64,
        prev_id: i64,
        next_id: i64,
        tombstone: bool,
        buffer_id: i64,
    ) {
        for (column, value) in [
            (PieceColumn::ListNumber, list_number),
            (PieceColumn::PrevId, prev_id),
            (PieceColumn::NextId, next_id),
            (PieceColumn::BufferId, buffer_id),
            (PieceColumn::StartByte, 0),
            (PieceColumn::LenBytes, PIECE_TEXT_UTF32_BYTES_PER_SCALAR as i64),
            (PieceColumn::Tombstone, if tombstone { 1 } else { 0 }),
        ] {
            self.put(piece_column_key(id, column), StoredValue::Int(value));
        }
    }
}

impl OpReader for FakeReader {
    fn read(&mut self, op: ReadOp) -> Result<ProvenRead, ChangelogError> {
        self.reads.borrow_mut().push(op.clone());
        let results = match &op {
            ReadOp::Key(key) | ReadOp::Bytes(key) => {
                self.kv.get(&format!("{key:?}")).cloned().into_iter().collect()
            }
            ReadOp::IndexValue { .. } => vec![],
        };
        Ok(ProvenRead { results })
    }
}

fn address() -> PieceTextAddress {
    PieceTextAddress {
        table: TABLE.to_string(),
        row_id: ROW_ID,
        column: COLUMN.to_string(),
    }
}

fn envelope(runs: Vec<PieceTextCleanupRunV1>) -> PieceTextCleanupPiecesEnvelopeV1 {
    PieceTextCleanupPiecesEnvelopeV1 {
        version: PIECE_TEXT_CLEANUP_ENVELOPE_VERSION_V1,
        address: address(),
        list_number: LIST_NUMBER,
        op_id: OP_ID,
        runs,
    }
}

fn entry(env: &PieceTextCleanupPiecesEnvelopeV1) -> ChangelogEntry {
    ChangelogEntry {
        timestamp: 1,
        uid: 0,
        parent_change: 0,
        message: LogMessage {
            op_type: OpType::PieceTextCleanupPieces,
            tree_path: root_tree_path(),
            entries: vec![env.changelog_entry_kv().unwrap()],
        },
        sig_ref: 0,
        parent_clc: [0u8; 32],
        signature: vec![],
    }
}

fn verify_as(
    reader: &mut FakeReader,
    env: &PieceTextCleanupPiecesEnvelopeV1,
    columns: Vec<String>,
) -> Result<Vec<BatchOp>, ChangelogError> {
    let result = PieceTextCleanupPiecesOp::extract_and_validate(
        &entry(env),
        reader,
        &OpContext { current_change_id: OP_ID as u64 },
        CleanupChecks { piece_text_columns: Ok(columns) },
    )?;
    let TraceStep::Write(ops) = &result.write_steps[0];
    Ok(ops.clone())
}

fn verify(
    reader: &mut FakeReader,
    env: &PieceTextCleanupPiecesEnvelopeV1,
) -> Result<Vec<BatchOp>, ChangelogError> {
    verify_as(reader, env, vec![COLUMN.to_string()])
}

fn op_puts_raw_i64(ops: &[BatchOp], key: StorageKey, value: i64) -> bool {
    let raw = StoredValue::Raw(i64_to_be(value));
    ops.iter().any(|op| matches!(op, BatchOp::Put { key: k, value: v } if *k == key && *v == raw))
}

fn op_puts_stored_i64(ops: &[BatchOp], key: StorageKey, value: i64) -> bool {
    let stored = StoredValue::Int(value);
    ops.iter().any(|op| matches!(op, BatchOp::Put { key: k, value: v } if *k == key && *v == stored))
}

fn op_deletes(ops: &[BatchOp], key: StorageKey) -> bool {
    ops.iter()
        .any(|op| matches!(op, BatchOp::Delete { key: k } if *k == key))
}

fn setup_chain(reader: &mut FakeReader, ids: &[i64], tombstones: &[i64]) {
    for (idx, id) in ids.iter().copied().enumerate() {
        let prev = if idx == 0 { 0 } else { ids[idx - 1] };
        let next = ids.get(idx + 1).copied().unwrap_or(0);
        reader.put_piece(id, prev, next, tombstones.contains(&id));
    }
}

#[test]
fn piece_text_cleanup_pieces_accepts_middle_run_relink() {
    let mut reader = FakeReader::default();
    reader.setup_base(1, 4);
    setup_chain(&mut reader, &[1, 2, 3, 4], &[2, 3]);
    let env = envelope(vec![PieceTextCleanupRunV1 {
        removals: vec![2, 3],
    }]);

    let ops = verify(&mut reader, &env).unwrap();

    assert!(op_puts_stored_i64(
        &ops,
        piece_column_key(1, PieceColumn::NextId),
        4
    ));
    assert!(op_puts_stored_i64(
        &ops,
        piece_column_key(4, PieceColumn::PrevId),
        1
    ));
    assert!(op_deletes(
        &ops,
        piece_column_key(2, PieceColumn::ListNumber)
    ));
    assert!(op_deletes(
        &ops,
        index_entry("buffer_id", 2, 2)
    ));
    assert!(op_deletes(
        &ops,
        index_entry("list_number", LIST_NUMBER, 3)
    ));
    assert_eq!(ops.len(), 2 + (7 + 2) * 2);
    assert!(
        !reader.reads.borrow().iter().any(|op| matches!(op, ReadOp::IndexValue { .. })),
        "a cleanup must not scan the document"
    );
}

#[test]
fn piece_text_cleanup_pieces_accepts_head_run_and_updates_head() {
    let mut reader = FakeReader::default();
    reader.setup_base(2, 4);
    setup_chain(&mut reader, &[2, 3, 4], &[2, 3]);
    let env = envelope(vec![PieceTextCleanupRunV1 {
        removals: vec![2, 3],
    }]);

    let ops = verify(&mut reader, &env).unwrap();

    assert!(op_puts_raw_i64(&ops, StorageKey::PieceHead { list_number: LIST_NUMBER }, 4));
    assert!(op_puts_stored_i64(
        &ops,
        piece_column_key(4, PieceColumn::PrevId),
        0
    ));
}

#[test]
fn piece_text_cleanup_pieces_accepts_tail_run_and_updates_tail() {
    let mut reader = FakeReader::default();
    reader.setup_base(1, 3);
    setup_chain(&mut reader, &[1, 2, 3], &[2, 3]);
    let env = envelope(vec![PieceTextCleanupRunV1 {
        removals: vec![2, 3],
    }]);

    let ops = verify(&mut reader, &env).unwrap();

    assert!(op_puts_stored_i64(
        &ops,
        piece_column_key(1, PieceColumn::NextId),
        0
    ));
    assert!(op_puts_raw_i64(&ops, StorageKey::PieceTail { list_number: LIST_NUMBER }, 1));
}

#[test]
fn piece_text_cleanup_pieces_accepts_remove_all_and_zeros_head_tail() {
    let mut reader = FakeReader::default();
    reader.setup_base(2, 3);
    setup_chain(&mut reader, &[2, 3], &[2, 3]);
    let env = envelope(vec![PieceTextCleanupRunV1 {
        removals: vec![2, 3],
    }]);

    let ops = verify(&mut reader, &env).unwrap();

    assert!(op_puts_raw_i64(&ops, StorageKey::PieceHead { list_number: LIST_NUMBER }, 0));
    assert!(op_puts_raw_i64(&ops, StorageKey::PieceTail { list_number: LIST_NUMBER }, 0));
    assert_eq!(ops.len(), 2 + (7 + 2) * 2);
}

#[test]
fn piece_text_cleanup_pieces_accepts_multiple_disjoint_runs() {
    let mut reader = FakeReader::default();
    reader.setup_base(1, 7);
    setup_chain(&mut reader, &[1, 2, 3, 4, 5, 6, 7], &[2, 5]);
    let env = envelope(vec![
        PieceTextCleanupRunV1 { removals: vec![2] },
        PieceTextCleanupRunV1 { removals: vec![5] },
    ]);

    let ops = verify(&mut reader, &env).unwrap();

    assert!(op_puts_stored_i64(
        &ops,
        piece_column_key(1, PieceColumn::NextId),
        3
    ));
    assert!(op_puts_stored_i64(
        &ops,
        piece_column_key(4, PieceColumn::NextId),
        6
    ));
    assert_eq!(ops.len(), 4 + (7 + 2) * 2);
}

#[test]
fn piece_text_cleanup_pieces_rejects_op_id_mismatch() {
    let mut reader = FakeReader::default();
    reader.setup_base(1, 2);
    setup_chain(&mut reader, &[1, 2], &[2]);
    let mut env = envelope(vec![PieceTextCleanupRunV1 { removals: vec![2] }]);
    env.op_id = OP_ID + 1;

    let err = verify(&mut reader, &env)
    .unwrap_err()
    .message();

    assert!(err.contains("current_change_id"), "{err}");
}

#[test]
fn piece_text_cleanup_pieces_rejects_parent_list_number_mismatch() {
    let mut reader = FakeReader::default();
    reader.setup_base(1, 2);
    reader.put(
        cell_key(),
        StoredValue::Int(LIST_NUMBER + 1),
    );
    setup_chain(&mut reader, &[1, 2], &[2]);
    let env = envelope(vec![PieceTextCleanupRunV1 { removals: vec![2] }]);

    let err = verify(&mut reader, &env).unwrap_err().message();

    assert!(err.contains("does not match envelope"), "{err}");
}

#[test]
fn piece_text_cleanup_pieces_rejects_parent_mapping_mismatch() {
    let mut reader = FakeReader::default();
    reader.setup_base(1, 2);
    reader.put(
        StorageKey::PieceParent { list_number: LIST_NUMBER },
        StoredValue::Parent(PieceTextAddress {
            table: TABLE.to_string(),
            row_id: ROW_ID + 1,
            column: COLUMN.to_string(),
        }),
    );
    setup_chain(&mut reader, &[1, 2], &[2]);
    let env = envelope(vec![PieceTextCleanupRunV1 { removals: vec![2] }]);

    let err = verify(&mut reader, &env).unwrap_err().message();

    assert!(err.contains("piece_coords_parent_key"), "{err}");
}

#[test]
fn piece_text_cleanup_pieces_rejects_non_piece_text_column() {
    let mut reader = FakeReader::default();
    reader.setup_base(1, 2);
    setup_chain(&mut reader, &[1, 2], &[2]);
    let env = envelope(vec![PieceTextCleanupRunV1 { removals: vec![2] }]);

    let err = verify_as(&mut reader, &env, vec![]).unwrap_err().message();

    assert!(err.contains("not declared as PieceText"), "{err}");
}

#[test]
fn piece_text_cleanup_pieces_rejects_non_tombstoned_removal() {
    let mut reader = FakeReader::default();
    reader.setup_base(1, 2);
    setup_chain(&mut reader, &[1, 2], &[]);
    let env = envelope(vec![PieceTextCleanupRunV1 { removals: vec![2] }]);

    let err = verify(&mut reader, &env).unwrap_err().message();

    assert!(err.contains("not tombstoned"), "{err}");
}

#[test]
fn piece_text_cleanup_pieces_rejects_invalid_removed_buffer_id() {
    let mut reader = FakeReader::default();
    reader.setup_base(1, 2);
    reader.put_piece(1, 0, 2, false);
    reader.put_piece_in_list(2, LIST_NUMBER, 1, 0, true, 0);
    let env = envelope(vec![PieceTextCleanupRunV1 { removals: vec![2] }]);

    let err = verify(&mut reader, &env).unwrap_err().message();

    assert!(err.contains("invalid buffer_id"), "{err}");
}

#[test]
fn piece_text_cleanup_pieces_rejects_unaligned_removed_row() {
    let mut reader = FakeReader::default();
    reader.setup_base(1, 2);
    setup_chain(&mut reader, &[1, 2], &[2]);
    reader.put(
        piece_column_key(2, PieceColumn::LenBytes),
        StoredValue::Int(PIECE_TEXT_UTF32_BYTES_PER_SCALAR as i64 + 1),
    );
    let env = envelope(vec![PieceTextCleanupRunV1 { removals: vec![2] }]);

    let err = verify(&mut reader, &env).unwrap_err().message();

    assert!(err.contains("UTF-32 aligned"), "{err}");
}

#[test]
fn piece_text_cleanup_pieces_rejects_broken_forward_link() {
    let mut reader = FakeReader::default();
    reader.setup_base(1, 4);
    setup_chain(&mut reader, &[1, 2, 3, 4], &[2, 3]);
    reader.put(
        piece_column_key(2, PieceColumn::NextId),
        StoredValue::Int(4),
    );
    let env = envelope(vec![PieceTextCleanupRunV1 {
        removals: vec![2, 3],
    }]);

    let err = verify(&mut reader, &env).unwrap_err().message();

    assert!(err.contains("next_id"), "{err}");
}

#[test]
fn piece_text_cleanup_pieces_rejects_broken_reverse_link() {
    let mut reader = FakeReader::default();
    reader.setup_base(1, 4);
    setup_chain(&mut reader, &[1, 2, 3, 4], &[2, 3]);
    reader.put(
        piece_column_key(3, PieceColumn::PrevId),
        StoredValue::Int(1),
    );
    let env = envelope(vec![PieceTextCleanupRunV1 {
        removals: vec![2, 3],
    }]);

    let err = verify(&mut reader, &env).unwrap_err().message();

    assert!(err.contains("prev_id"), "{err}");
}

#[test]
fn piece_text_cleanup_pieces_rejects_two_runs_claiming_head() {
    let mut reader = FakeReader::default();
    reader.setup_base(2, 6);
    setup_chain(&mut reader, &[2, 3, 4, 5, 6], &[2, 5]);
    reader.put(
        piece_column_key(5, PieceColumn::PrevId),
        StoredValue::Int(0),
    );
    let env = envelope(vec![
        PieceTextCleanupRunV1 { removals: vec![2] },
        PieceTextCleanupRunV1 { removals: vec![5] },
    ]);

    let err = verify(&mut reader, &env).unwrap_err().message();

    assert!(err.contains("list head"), "{err}");
}

#[test]
fn piece_text_cleanup_pieces_rejects_two_runs_claiming_tail() {
    let mut reader = FakeReader::default();
    reader.setup_base(1, 5);
    setup_chain(&mut reader, &[1, 2, 3, 4, 5], &[2, 5]);
    reader.put(
        piece_column_key(2, PieceColumn::NextId),
        StoredValue::Int(0),
    );
    let env = envelope(vec![
        PieceTextCleanupRunV1 { removals: vec![2] },
        PieceTextCleanupRunV1 { removals: vec![5] },
    ]);

    let err = verify(&mut reader, &env).unwrap_err().message();

    assert!(err.contains("list tail"), "{err}");
}

#[test]
fn piece_text_cleanup_pieces_rejects_adjacent_runs_that_should_be_merged() {
    let mut reader = FakeReader::default();
    reader.setup_base(1, 4);
    setup_chain(&mut reader, &[1, 2, 3, 4], &[2, 3]);
    let env = envelope(vec![
        PieceTextCleanupRunV1 { removals: vec![2] },
        PieceTextCleanupRunV1 { removals: vec![3] },
    ]);

    let err = verify(&mut reader, &env).unwrap_err().message();

    assert!(err.contains("also a removed row"), "{err}");
}

#[test]
fn piece_text_cleanup_pieces_rejects_duplicate_write_keys() {
    let key = piece_column_key(1, PieceColumn::NextId);
    let mut ops = vec![BatchOp::Put { key: key.clone(), value: StoredValue::Raw(i64_to_be(2)) }];
    ensure_no_duplicate_write_keys(OpName::PieceTextCleanupPieces, &ops, 0).unwrap();

    ops.push(BatchOp::Put { key, value: StoredValue::Raw(i64_to_be(3)) });
    let err = ensure_no_duplicate_write_keys(OpName::PieceTextCleanupPieces, &ops, 0)
        .unwrap_err()
        .message();

    assert!(err.contains("duplicate write key"), "{err}");
}

#[test]
fn piece_text_cleanup_pieces_rejects_duplicate_removal_through_dispatch() {
    let mut reader = FakeReader::default();
    reader.setup_base(1, 2);
    setup_chain(&mut reader, &[1, 2], &[2]);
    let env = envelope(vec![PieceTextCleanupRunV1 {
        removals: vec![2, 2],
    }]);

    let err = verify(&mut reader, &env).unwrap_err().message();

    assert!(err.contains("appears more than once"), "{err}");
}

#[test]
fn piece_text_cleanup_pieces_rejects_duplicate_nonzero_boundary_use() {
    let mut reader = FakeReader::default();
    reader.setup_base(1, 5);
    setup_chain(&mut reader, &[1, 2, 3, 4, 5], &[2, 4]);
    let env = envelope(vec![
        PieceTextCleanupRunV1 { removals: vec![2] },
        PieceTextCleanupRunV1 { removals: vec![4] },
    ]);

    let err = verify(&mut reader, &env).unwrap_err().message();

    assert!(err.contains("more than one run"), "{err}");
}

#[test]
fn piece_text_cleanup_pieces_rejects_removed_row_from_other_list() {
    let mut reader = FakeReader::default();
    reader.setup_base(1, 2);
    reader.put_piece(1, 0, 2, false);
    reader.put_piece_in_list(2, LIST_NUMBER + 1, 1, 0, true, 2);
    let env = envelope(vec![PieceTextCleanupRunV1 { removals: vec![2] }]);

    let err = verify(&mut reader, &env).unwrap_err().message();

    assert!(err.contains("belongs to list"), "{err}");
}

#[test]
fn piece_text_cleanup_pieces_delete_columns_are_schema_complete() {
    let mut reader = FakeReader::default();
    reader.setup_base(1, 2);
    setup_chain(&mut reader, &[1, 2], &[2]);
    let env = envelope(vec![PieceTextCleanupRunV1 { removals: vec![2] }]);

    let ops = verify(&mut reader, &env).unwrap();

    for column in [
        PieceColumn::ListNumber,
        PieceColumn::PrevId,
        PieceColumn::NextId,
        PieceColumn::BufferId,
        PieceColumn::StartByte,
        PieceColumn::LenBytes,
        PieceColumn::Tombstone,
    ] {
        assert!(
            op_deletes(&ops, piece_column_key(2, column)),
            "missing delete for {column:?}"
        );
    }
    assert!(op_deletes(
        &ops,
        index_entry("buffer_id", 2, 2)
    ));
    assert!(op_deletes(
        &ops,
        index_entry("list_number", LIST_NUMBER, 2)
    ));
}

#[test]
fn piece_text_cleanup_pieces_rejects_corrupt_removed_run_order() {
    let mut reader = FakeReader::default();
    reader.setup_base(1, 4);
    setup_chain(&mut reader, &[1, 2, 3, 4], &[2, 3]);
    let env = envelope(vec![PieceTextCleanupRunV1 {
        removals: vec![3, 2],
    }]);

    let err = verify(&mut reader, &env).unwrap_err().message();

    assert!(err.contains("next_id"), "{err}");
}

#[test]
fn piece_text_cleanup_pieces_uses_stored_value_for_relink_columns() {
    let row = PieceRow {
        id: 9,
        list_number: LIST_NUMBER,
        prev_id: 0,
        next_id: 0,
        coord: PieceCoord {
            buffer_id: 9,
            start_byte: 0,
            len_bytes: PIECE_TEXT_UTF32_BYTES_PER_SCALAR,
            tombstone: true,
        },
    };
    let mut ops = Vec::new();
    materialise_run_writes(1, 2, LIST_NUMBER, &vec![row], &mut ops).unwrap();

    assert!(op_puts_stored_i64(
        &ops,
        piece_column_key(1, PieceColumn::NextId),
        2
    ));
    assert!(op_puts_stored_i64(
        &ops,
        piece_column_key(2, PieceColumn::PrevId),
        1
    ));
}

impl FakeReader {
    fn get(&self, key: &StorageKey) -> Option<StoredValue> {
        self.kv.get(&format!("{key:?}")).map(|(_, v)| v.clone())
    }

    /// The rows of the chain from its head, with whether each is deleted.
    fn chain(&self) -> Vec<(i64, bool)> {
        let endpoint = |key: StorageKey| match self.get(&key) {
            Some(StoredValue::Raw(bytes)) => i64_from_be(&bytes),
            other => panic!("{other:?}"),
        };
        let column = |id: i64, column: PieceColumn| match self.get(&piece_column_key(id, column)) {
            Some(StoredValue::Int(i)) => i,
            other => panic!("{other:?}"),
        };
        let mut rows = vec![];
        let mut last = 0;
        let mut id = endpoint(StorageKey::PieceHead { list_number: LIST_NUMBER });
        while id != 0 {
            assert_eq!(column(id, PieceColumn::PrevId), last);
            rows.push((id, column(id, PieceColumn::Tombstone) == 1));
            last = id;
            id = column(id, PieceColumn::NextId);
        }
        assert_eq!(endpoint(StorageKey::PieceTail { list_number: LIST_NUMBER }), last);
        rows
    }
}

fn run_of(removals: &[i64]) -> PieceTextCleanupRunV1 {
    PieceTextCleanupRunV1 { removals: removals.to_vec() }
}

#[test]
fn cleanups_keep_the_text() {
    let mut reader = FakeReader::default();
    reader.setup_base(3, 9);
    setup_chain(&mut reader, &[3, 1, 5, 8, 2, 7, 4, 9], &[3, 8, 2, 4, 9]);
    let live = |rows: Vec<(i64, bool)>| -> Vec<i64> {
        rows.iter().filter(|(_, deleted)| !deleted).map(|(id, _)| *id).collect()
    };
    assert_eq!(live(reader.chain()), vec![1, 5, 7]);
    let env = envelope(vec![run_of(&[3]), run_of(&[4, 9]), run_of(&[8])]);
    for op in verify(&mut reader, &env).unwrap() {
        match op {
            BatchOp::Put { key, value } => reader.put(key, value),
            BatchOp::Delete { key } => {
                reader.kv.remove(&format!("{key:?}"));
            }
        }
    }
    assert_eq!(reader.chain(), vec![(1, false), (5, false), (2, true), (7, false)]);
    assert_eq!(live(reader.chain()), vec![1, 5, 7]);
    assert_eq!(reader.get(&piece_column_key(8, PieceColumn::BufferId)), None);
}

/// The message that a cleanup of the chain 1, 2, 3, 4 is refused with, of which 2
/// and 3 are deleted.
fn refusal(change: impl Fn(&mut FakeReader), runs: Vec<PieceTextCleanupRunV1>) -> String {
    let mut reader = FakeReader::default();
    reader.setup_base(1, 4);
    setup_chain(&mut reader, &[1, 2, 3, 4], &[2, 3]);
    change(&mut reader);
    verify(&mut reader, &envelope(runs)).unwrap_err().message()
}

#[test]
fn cleanups_of_the_tree_are_refused_for_these_reasons() {
    let set = |id: i64, column: PieceColumn, value: i64| {
        move |r: &mut FakeReader| r.put(piece_column_key(id, column), StoredValue::Int(value))
    };
    let both = || vec![run_of(&[2, 3])];
    assert_eq!(
        refusal(
            |r| {
                r.kv.remove(&format!("{:?}", cell_key()));
            },
            both()
        ),
        "piece_text_cleanup_pieces: parent PieceText cell docs/42/body read returned 0 results, expected 1"
    );
    assert_eq!(
        refusal(
            |r| r.put(StorageKey::PieceHead { list_number: LIST_NUMBER }, StoredValue::Raw(vec![])),
            both()
        ),
        "piece_text_cleanup_pieces: piece_coords head key has 0 bytes, expected 8"
    );
    assert_eq!(
        refusal(set(2, PieceColumn::NextId, 4), both()),
        "piece_text_cleanup_pieces: removed row 2 next_id is 4, expected next removed row 3"
    );
    assert_eq!(
        refusal(set(3, PieceColumn::PrevId, 1), both()),
        "piece_text_cleanup_pieces: removed row 3 prev_id is 1, expected previous removed row 2"
    );
    assert_eq!(
        refusal(set(2, PieceColumn::PrevId, 0), both()),
        "piece_text_cleanup_pieces: run starts at row 2 (prev_id 0), but list head is 1"
    );
    assert_eq!(
        refusal(set(3, PieceColumn::NextId, 0), both()),
        "piece_text_cleanup_pieces: run ends at row 3 (next_id 0), but list tail is 4"
    );
    assert_eq!(
        refusal(set(3, PieceColumn::NextId, 1), both()),
        "piece_text_cleanup_pieces: derived prev and next survivor are both 1"
    );
    assert_eq!(
        refusal(|_| (), vec![run_of(&[2]), run_of(&[3])]),
        "piece_text_cleanup_pieces: boundary survivor 3 is also a removed row"
    );
    assert_eq!(
        refusal(set(2, PieceColumn::ListNumber, 8), both()),
        "piece_text_cleanup_pieces: removed _piecetext_pieces row 2 belongs to list 8, expected 7"
    );
    assert_eq!(
        refusal(|_| (), vec![run_of(&[4])]),
        "piece_text_cleanup_pieces: removed _piecetext_pieces row 4 is not tombstoned"
    );
    assert_eq!(
        refusal(set(2, PieceColumn::BufferId, 0), both()),
        "piece_text_cleanup_pieces: removed _piecetext_pieces row 2 has invalid buffer_id 0"
    );
    assert_eq!(
        refusal(set(2, PieceColumn::LenBytes, 6), both()),
        "piece_text_cleanup_pieces: removed _piecetext_pieces row 2: _piecetext_pieces coord is not UTF-32 aligned (start_byte=0, len_bytes=6); both must be multiples of 4"
    );
}

#[test]
fn cleanups_belong_to_the_current_change() {
    let mut reader = FakeReader::default();
    reader.setup_base(1, 4);
    setup_chain(&mut reader, &[1, 2, 3, 4], &[2, 3]);
    let env = envelope(vec![run_of(&[2, 3])]);
    let mut at = |current_change_id: u64| {
        PieceTextCleanupPiecesOp::extract_and_validate(
            &entry(&env),
            &mut reader,
            &OpContext { current_change_id },
            CleanupChecks { piece_text_columns: Ok(vec![COLUMN.to_string()]) },
        )
    };
    assert!(at(99).is_ok());
    assert_eq!(
        at(100).unwrap_err().message(),
        "piece_text_cleanup_pieces: envelope op_id 99 does not match current_change_id 100"
    );
    assert_eq!(
        at(u64::MAX).unwrap_err().message(),
        "piece_text_cleanup_pieces: current_change_id 18446744073709551615 is outside i64 range"
    );
}

#[test]
fn rows_without_a_list_are_not_taken_out() {
    let mut row = PieceRow {
        id: 9,
        list_number: 0,
        prev_id: 0,
        next_id: 0,
        coord: PieceCoord { buffer_id: 9, start_byte: 0, len_bytes: 4, tombstone: true },
    };
    assert_eq!(
        materialise_run_writes(1, 2, 7, &vec![row], &mut vec![]).unwrap_err().message(),
        "_piecetext_pieces index deletes require positive row_id/list_number/buffer_id, got row_id=9, list_number=0, buffer_id=9"
    );
    row.list_number = 7;
    assert_eq!(
        materialise_run_writes(9, 2, 7, &vec![row], &mut vec![]).unwrap_err().message(),
        "piece_text_cleanup_pieces: duplicate write key"
    );
    assert_eq!(
        materialise_run_writes(9, 2, 7, &vec![row], &mut vec![]).unwrap_err(),
        ChangelogError::Refused(
            OpName::PieceTextCleanupPieces,
            OpFault::DuplicateWriteKey {
                key: piece_column_key(9, PieceColumn::NextId),
            },
        )
    );
}

#[test]
fn rows_beside_a_run_are_not_read() {
    let mut reader = FakeReader::default();
    reader.setup_base(1, 4);
    setup_chain(&mut reader, &[1, 2, 3, 4], &[2, 3]);
    verify(&mut reader, &envelope(vec![PieceTextCleanupRunV1 { removals: vec![2, 3] }])).unwrap();
    let reads = reader.reads.borrow();
    let rows: Vec<i64> = reads
        .iter()
        .filter_map(|op| match op {
            ReadOp::Key(StorageKey::Column { table, row_id, .. }) if *table == piece_table_name() => {
                Some(*row_id)
            }
            _ => None,
        })
        .collect();
    assert_eq!(rows, vec![2, 2, 2, 2, 2, 2, 2, 3, 3, 3, 3, 3, 3, 3]);
}
