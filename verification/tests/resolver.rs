//! Coordinates resolved on rows in the tree.

use std::cell::RefCell;
use std::collections::BTreeMap;

use changelog_core::changelog::ChangelogError;
use changelog_core::piece_text::{BufferCoord, PieceCoord};
use changelog_core::piece_text_planner::{ClampDirection, PieceRow, ResolvePurpose};
use changelog_core::piece_text_resolver::{
    buffers_delete_index_deletes, buffers_insert_index_puts, piece_column_key,
    piece_coords_delete_index_deletes, piece_coords_insert_index_puts, read_piece_coords_row,
    resolve_coord, resolve_coord_with_metrics, IndexedResolveResult, PieceColumn,
    ResolveCoordMetrics,
};
use changelog_core::storage::{
    buffer_table_name, i64_from_be, i64_to_be, piece_table_name, BatchOp, IndexValue, OpReader,
    ProvenRead, ReadOp, StorageKey, StoredValue,
};

/// A tree of keys and values, with a log of what was read of it, and reads that it
/// answers falsely.
#[derive(Default)]
struct StubReader {
    kv: BTreeMap<String, (StorageKey, StoredValue)>,
    overrides: Vec<(ReadOp, Vec<(StorageKey, StoredValue)>)>,
    reads: RefCell<Vec<ReadOp>>,
}

fn buffer_index_key(buffer_id: i64, row_id: i64) -> StorageKey {
    StorageKey::Index {
        table: piece_table_name(),
        column: "buffer_id".to_string(),
        value: IndexValue::Int(buffer_id),
        row_id,
    }
}

fn index_put(table: String, column: &str, value: IndexValue, row_id: i64) -> BatchOp {
    BatchOp::Put {
        key: StorageKey::Index { table, column: column.to_string(), value, row_id },
        value: StoredValue::RowId(row_id),
    }
}

impl StubReader {
    fn put(&mut self, key: StorageKey, value: StoredValue) {
        self.kv.insert(format!("{key:?}"), (key, value));
    }

    fn put_row(&mut self, row: PieceRow) {
        for (column, value) in [
            (PieceColumn::ListNumber, row.list_number),
            (PieceColumn::PrevId, row.prev_id),
            (PieceColumn::NextId, row.next_id),
            (PieceColumn::BufferId, row.coord.buffer_id),
            (PieceColumn::StartByte, row.coord.start_byte as i64),
            (PieceColumn::LenBytes, row.coord.len_bytes as i64),
            (PieceColumn::Tombstone, if row.coord.tombstone { 1 } else { 0 }),
        ] {
            self.put(piece_column_key(row.id, column), StoredValue::Int(value));
        }
    }

    fn put_buffer_index(&mut self, buffer_id: i64, row_id: i64) {
        self.put(buffer_index_key(buffer_id, row_id), StoredValue::RowId(row_id));
    }

    fn put_head(&mut self, list_number: i64, head_id: i64) {
        self.put(StorageKey::PieceHead { list_number }, StoredValue::Raw(i64_to_be(head_id)));
    }

    fn put_tail(&mut self, list_number: i64, tail_id: i64) {
        self.put(StorageKey::PieceTail { list_number }, StoredValue::Raw(i64_to_be(tail_id)));
    }
}

impl OpReader for StubReader {
    fn read(&mut self, op: ReadOp) -> Result<ProvenRead, ChangelogError> {
        self.reads.borrow_mut().push(op.clone());
        if let Some((_, results)) = self.overrides.iter().find(|(o, _)| *o == op) {
            return Ok(ProvenRead { results: results.clone() });
        }
        let mut results: Vec<(StorageKey, StoredValue)> = match &op {
            ReadOp::Key(key) | ReadOp::Bytes(key) => {
                self.kv.get(&format!("{key:?}")).cloned().into_iter().collect()
            }
            ReadOp::IndexValue { table, column, value } => self
                .kv
                .values()
                .filter(|(k, _)| match k {
                    StorageKey::Index { table: t, column: c, value: v, .. } => {
                        t == table && c == column && v == value
                    }
                    _ => false,
                })
                .cloned()
                .collect(),
        };
        results.sort_by_key(|(k, _)| match k {
            StorageKey::Index { row_id, .. } => *row_id,
            _ => 0,
        });
        Ok(ProvenRead { results })
    }
}

fn piece_coord(buffer_id: i64, start_byte: u32, len_bytes: u32, tombstone: bool) -> PieceCoord {
    PieceCoord {
        buffer_id,
        start_byte,
        len_bytes,
        tombstone,
    }
}

fn row(id: i64, list_number: i64, prev_id: i64, next_id: i64, coord: PieceCoord) -> PieceRow {
    PieceRow {
        id,
        list_number,
        prev_id,
        next_id,
        coord,
    }
}

struct LcgRng(u64);

impl LcgRng {
    fn new(seed: u64) -> Self {
        LcgRng(seed)
    }

    fn next(&mut self) -> u32 {
        self.0 = self
            .0
            .wrapping_mul(6364136223846793005)
            .wrapping_add(1442695040888963407);
        (self.0 >> 32) as u32
    }
}

#[test]
fn resolve_coord_document_start_reads_head_key() {
    let mut reader = StubReader::default();
    reader.put_head(9, 42);

    let resolved = resolve_coord(
        &mut reader,
        9,
        BufferCoord::document_start(),
        ResolvePurpose::InsertAnchor,
    )
    .unwrap();

    assert_eq!(
        resolved,
        IndexedResolveResult::DocumentStart { head_id: 42 }
    );
    assert_eq!(*reader.reads.borrow(), vec![ReadOp::Key(StorageKey::PieceHead { list_number: 9 })]);
}

#[test]
fn resolve_coord_uses_buffer_id_index_and_predecessor_boundary_wins() {
    let mut reader = StubReader::default();
    let left = row(1, 9, 0, 2, piece_coord(5, 0, 20, false));
    let right = row(2, 9, 1, 0, piece_coord(5, 20, 20, false));
    reader.put_row(left.clone());
    reader.put_row(right);
    reader.put_buffer_index(5, 1);
    reader.put_buffer_index(5, 2);

    let resolved = resolve_coord(
        &mut reader,
        9,
        BufferCoord {
            buffer_id: 5,
            byte_pos: 20,
        },
        ResolvePurpose::InsertAnchor,
    )
    .unwrap();

    assert_eq!(
        resolved,
        IndexedResolveResult::InRow {
            row: left,
            offset: 20
        }
    );
    assert_eq!(
        reader.reads.borrow()[0],
        ReadOp::IndexValue {
            table: piece_table_name(),
            column: "buffer_id".to_string(),
            value: IndexValue::Int(5),
        }
    );
}

#[test]
fn resolve_coord_rejects_overlapping_same_buffer_rows() {
    let mut reader = StubReader::default();
    let first = row(1, 9, 0, 2, piece_coord(5, 0, 20, false));
    let second = row(2, 9, 1, 0, piece_coord(5, 8, 20, false));
    for piece in [first, second] {
        reader.put_row(piece.clone());
        reader.put_buffer_index(5, piece.id);
    }

    let err = resolve_coord(
        &mut reader,
        9,
        BufferCoord {
            buffer_id: 5,
            byte_pos: 12,
        },
        ResolvePurpose::InsertAnchor,
    )
    .unwrap_err();
    assert!(
        err.message().contains("coord contradiction"),
        "unexpected error: {err:?}"
    );
}

#[test]
fn resolve_coord_tombstone_clamps_by_purpose() {
    let mut reader = StubReader::default();
    let live_left = row(1, 9, 0, 2, piece_coord(5, 0, 8, false));
    let tomb_a = row(2, 9, 1, 3, piece_coord(5, 8, 4, true));
    let tomb_b = row(3, 9, 2, 4, piece_coord(5, 12, 4, true));
    let live_right = row(4, 9, 3, 0, piece_coord(5, 16, 8, false));
    for piece in [
        live_left.clone(),
        tomb_a,
        tomb_b.clone(),
        live_right.clone(),
    ] {
        reader.put_row(piece.clone());
        reader.put_buffer_index(5, piece.id);
    }

    let coord = BufferCoord {
        buffer_id: 5,
        byte_pos: 12,
    };
    let insert_anchor =
        resolve_coord(&mut reader, 9, coord, ResolvePurpose::InsertAnchor).unwrap();
    assert_eq!(
        insert_anchor,
        IndexedResolveResult::ClampedToRow {
            row: live_left.clone(),
            direction: ClampDirection::Backward,
            hops: 1,
        }
    );

    let delete_end = resolve_coord(&mut reader, 9, coord, ResolvePurpose::DeleteEnd).unwrap();
    assert_eq!(
        delete_end,
        IndexedResolveResult::ClampedToRow {
            row: live_left,
            direction: ClampDirection::Backward,
            hops: 1,
        }
    );

    let delete_start =
        resolve_coord(&mut reader, 9, coord, ResolvePurpose::DeleteStart).unwrap();
    assert_eq!(
        delete_start,
        IndexedResolveResult::ClampedToRow {
            row: live_right,
            direction: ClampDirection::Forward,
            hops: 2,
        }
    );
}

#[test]
fn resolve_coord_random_tombstone_runs_clamp_all_purposes() {
    let mut rng = LcgRng::new(0xB0FF_EE12_3456_7890);

    for _case in 0..64 {
        let list_number = 9;
        let buffer_id = 5 + i64::from(rng.next() % 17);
        let run_len = 1 + (rng.next() as usize % 8);
        let target_index = rng.next() as usize % run_len;

        let mut pieces = Vec::new();
        let mut start_byte = 0u32;

        let left_len = (1 + (rng.next() % 5)) * 4;
        pieces.push(row(
            1,
            list_number,
            0,
            2,
            piece_coord(buffer_id, start_byte, left_len, false),
        ));
        start_byte += left_len;

        let mut coord = BufferCoord {
            buffer_id,
            byte_pos: 0,
        };
        for i in 0..run_len {
            let id = 2 + i as i64;
            let len_bytes = (2 + (rng.next() % 5)) * 4;
            if i == target_index {
                coord.byte_pos = start_byte + 4;
            }
            pieces.push(row(
                id,
                list_number,
                id - 1,
                id + 1,
                piece_coord(buffer_id, start_byte, len_bytes, true),
            ));
            start_byte += len_bytes;
        }

        let right_id = 2 + run_len as i64;
        let right_len = (1 + (rng.next() % 5)) * 4;
        pieces.push(row(
            right_id,
            list_number,
            right_id - 1,
            0,
            piece_coord(buffer_id, start_byte, right_len, false),
        ));

        let live_left = pieces[0].clone();
        let live_right = pieces[run_len + 1].clone();
        let backward_hops = (target_index + 1) as u32;
        let forward_hops = (run_len - target_index) as u32;

        for (purpose, expected_row, expected_direction, expected_hops) in [
            (
                ResolvePurpose::InsertAnchor,
                live_left.clone(),
                ClampDirection::Backward,
                backward_hops,
            ),
            (
                ResolvePurpose::DeleteEnd,
                live_left.clone(),
                ClampDirection::Backward,
                backward_hops,
            ),
            (
                ResolvePurpose::DeleteStart,
                live_right.clone(),
                ClampDirection::Forward,
                forward_hops,
            ),
        ] {
            let mut reader = StubReader::default();
            for piece in &pieces {
                reader.put_row(piece.clone());
                reader.put_buffer_index(buffer_id, piece.id);
            }

            let resolved = resolve_coord(&mut reader, list_number, coord, purpose).unwrap();
            assert_eq!(
                resolved,
                IndexedResolveResult::ClampedToRow {
                    row: expected_row,
                    direction: expected_direction,
                    hops: expected_hops,
                }
            );
        }
    }
}

#[test]
fn resolve_coord_endpoint_clamps_read_head_and_tail_keys() {
    let mut backward = StubReader::default();
    let tomb_head = row(1, 9, 0, 2, piece_coord(5, 0, 4, true));
    backward.put_row(tomb_head);
    backward.put_buffer_index(5, 1);
    backward.put_head(9, 1);
    let resolved = resolve_coord(
        &mut backward,
        9,
        BufferCoord {
            buffer_id: 5,
            byte_pos: 0,
        },
        ResolvePurpose::InsertAnchor,
    )
    .unwrap();
    assert_eq!(
        resolved,
        IndexedResolveResult::ClampedBeforeHead {
            head_id: 1,
            start_row_id: 1,
            hops: 1,
        }
    );
    assert!(backward
        .reads
        .borrow()
        .iter()
        .any(|op| op == &ReadOp::Key(StorageKey::PieceHead { list_number: 9 })));

    let mut forward = StubReader::default();
    let tomb_tail = row(8, 9, 7, 0, piece_coord(5, 12, 8, true));
    forward.put_row(tomb_tail);
    forward.put_buffer_index(5, 8);
    forward.put_tail(9, 8);
    let resolved = resolve_coord(
        &mut forward,
        9,
        BufferCoord {
            buffer_id: 5,
            byte_pos: 16,
        },
        ResolvePurpose::DeleteStart,
    )
    .unwrap();
    assert_eq!(
        resolved,
        IndexedResolveResult::ClampedAfterTail {
            tail_id: 8,
            start_row_id: 8,
            hops: 1,
        }
    );
    assert!(forward
        .reads
        .borrow()
        .iter()
        .any(|op| op == &ReadOp::Key(StorageKey::PieceTail { list_number: 9 })));
}

#[test]
fn resolve_coord_rejects_wrong_key_returned_by_point_read() {
    let mut reader = StubReader::default();
    let piece = row(1, 9, 0, 0, piece_coord(5, 0, 5, false));
    reader.put_row(piece.clone());
    reader.put_buffer_index(5, 1);
    let requested = piece_column_key(1, PieceColumn::ListNumber);
    let wrong = piece_column_key(2, PieceColumn::ListNumber);
    reader.overrides.push((
        ReadOp::Key(requested),
        vec![(wrong, StoredValue::Int(9))],
    ));

    let err = resolve_coord(
        &mut reader,
        9,
        BufferCoord {
            buffer_id: 5,
            byte_pos: 4,
        },
        ResolvePurpose::InsertAnchor,
    )
    .unwrap_err();
    assert!(err.message().contains("wrong key"));
}

#[test]
fn resolve_coord_rejects_wrong_index_column_value() {
    let mut reader = StubReader::default();
    reader.overrides.push((
        ReadOp::IndexValue {
            table: piece_table_name(),
            column: "buffer_id".to_string(),
            value: IndexValue::Int(5),
        },
        vec![(buffer_index_key(6, 1), StoredValue::RowId(1))],
    ));

    let err = resolve_coord(
        &mut reader,
        9,
        BufferCoord {
            buffer_id: 5,
            byte_pos: 4,
        },
        ResolvePurpose::InsertAnchor,
    )
    .unwrap_err();
    assert!(err.message().contains("expected 5"));
}

#[test]
fn resolve_coord_rejects_missing_index_entry() {
    let mut reader = StubReader::default();
    reader.put_row(row(1, 9, 0, 0, piece_coord(5, 0, 5, false)));

    let err = resolve_coord(
        &mut reader,
        9,
        BufferCoord {
            buffer_id: 5,
            byte_pos: 4,
        },
        ResolvePurpose::InsertAnchor,
    )
    .unwrap_err();
    assert!(err.message().contains("unknown piece-text coordinate"));
}

#[test]
fn resolve_coord_rejects_unaligned_byte_pos() {
    let mut reader = StubReader::default();
    let err = resolve_coord(
        &mut reader,
        9,
        BufferCoord {
            buffer_id: 5,
            byte_pos: 1,
        },
        ResolvePurpose::InsertAnchor,
    )
    .unwrap_err();
    assert!(
        err.message().contains("not a multiple of 4"),
        "unexpected error: {err:?}"
    );
}

#[test]
fn resolve_coord_rejects_row_from_other_document() {
    let mut reader = StubReader::default();
    let foreign = row(1, 7, 0, 0, piece_coord(5, 0, 20, false));
    reader.put_row(foreign);
    reader.put_buffer_index(5, 1);

    let err = resolve_coord(
        &mut reader,
        9,
        BufferCoord {
            buffer_id: 5,
            byte_pos: 8,
        },
        ResolvePurpose::InsertAnchor,
    )
    .unwrap_err();
    assert!(
        err.message().contains("requested list 9"),
        "unexpected error: {err:?}"
    );
}

#[test]
fn clamp_walk_rejects_neighbour_from_other_document() {
    let mut reader = StubReader::default();
    let tomb = row(2, 9, 1, 0, piece_coord(5, 0, 8, true));
    let foreign_prev = row(1, 7, 0, 2, piece_coord(6, 0, 8, false));
    reader.put_row(tomb);
    reader.put_row(foreign_prev);
    reader.put_buffer_index(5, 2);

    let err = resolve_coord(
        &mut reader,
        9,
        BufferCoord {
            buffer_id: 5,
            byte_pos: 4,
        },
        ResolvePurpose::InsertAnchor,
    )
    .unwrap_err();
    assert!(
        err.message().contains("clamp walk for list 9"),
        "unexpected error: {err:?}"
    );
}

#[test]
fn clamp_backward_rejects_zero_prev_that_is_not_head() {
    let mut reader = StubReader::default();
    let tomb = row(2, 9, 0, 0, piece_coord(5, 0, 8, true));
    reader.put_row(tomb);
    reader.put_buffer_index(5, 2);
    reader.put_head(9, 1);

    let err = resolve_coord(
        &mut reader,
        9,
        BufferCoord {
            buffer_id: 5,
            byte_pos: 4,
        },
        ResolvePurpose::InsertAnchor,
    )
    .unwrap_err();
    assert!(
        err.message().contains("is not the document head"),
        "unexpected error: {err:?}"
    );
}

#[test]
fn clamp_forward_rejects_zero_next_that_is_not_tail() {
    let mut reader = StubReader::default();
    let tomb = row(2, 9, 0, 0, piece_coord(5, 0, 8, true));
    reader.put_row(tomb);
    reader.put_buffer_index(5, 2);
    reader.put_tail(9, 9);

    let err = resolve_coord(
        &mut reader,
        9,
        BufferCoord {
            buffer_id: 5,
            byte_pos: 4,
        },
        ResolvePurpose::DeleteStart,
    )
    .unwrap_err();
    assert!(
        err.message().contains("is not the document tail"),
        "unexpected error: {err:?}"
    );
}

#[test]
fn resolve_coord_rejects_contradicting_tombstone_clamp_walk() {
    let mut reader = StubReader::default();
    let live_left = row(1, 9, 0, 99, piece_coord(5, 0, 8, false));
    let tomb = row(2, 9, 1, 0, piece_coord(5, 8, 8, true));
    for piece in [live_left, tomb] {
        reader.put_row(piece.clone());
        reader.put_buffer_index(5, piece.id);
    }

    let err = resolve_coord(
        &mut reader,
        9,
        BufferCoord {
            buffer_id: 5,
            byte_pos: 12,
        },
        ResolvePurpose::InsertAnchor,
    )
    .unwrap_err();
    assert!(
        err.message().contains("tombstone clamp contradiction"),
        "unexpected error: {err:?}"
    );
}

#[test]
fn resolve_coord_random_valid_chains_find_unique_covering_piece() {
    let mut reader = StubReader::default();
    let mut starts_by_buffer = BTreeMap::<i64, u32>::new();
    let mut pieces = Vec::new();
    for id in 1..=50 {
        let buffer_id = (id % 7) + 1;
        let start = starts_by_buffer.entry(buffer_id).or_insert(0);
        let piece = row(
            id,
            9,
            if id == 1 { 0 } else { id - 1 },
            if id == 50 { 0 } else { id + 1 },
            piece_coord(buffer_id, *start, 40, false),
        );
        *start += 40;
        reader.put_row(piece.clone());
        reader.put_buffer_index(buffer_id, id);
        pieces.push(piece);
    }

    for i in [0usize, 3, 8, 17, 29, 41, 49] {
        let piece = pieces[i].clone();
        let resolved = resolve_coord(
            &mut reader,
            9,
            BufferCoord {
                buffer_id: piece.coord.buffer_id,
                byte_pos: piece.coord.start_byte + 20,
            },
            ResolvePurpose::InsertAnchor,
        )
        .unwrap();
        assert_eq!(
            resolved,
            IndexedResolveResult::InRow {
                row: piece,
                offset: 20,
            }
        );
    }
}

#[test]
fn resolve_coord_read_count_scales_with_buffer_fanout_not_document_size() {
    let mut reader = StubReader::default();
    for id in 1..=1000 {
        let piece = row(
            id,
            9,
            if id == 1 { 0 } else { id - 1 },
            if id == 1000 { 0 } else { id + 1 },
            piece_coord(id, 0, 40, false),
        );
        reader.put_row(piece.clone());
        reader.put_buffer_index(id, id);
    }

    let resolved = resolve_coord(
        &mut reader,
        9,
        BufferCoord {
            buffer_id: 1000,
            byte_pos: 20,
        },
        ResolvePurpose::InsertAnchor,
    )
    .unwrap();
    assert!(matches!(
        resolved,
        IndexedResolveResult::InRow {
            row: PieceRow { id: 1000, .. },
            offset: 20
        }
    ));
    assert_eq!(reader.reads.borrow().len(), 8);
}

#[test]
fn piece_coords_index_helper_matches_standard_insert_index_puts() {
    let helper = piece_coords_insert_index_puts(7, 3, 5).unwrap();
    let expected = vec![
        index_put(piece_table_name(), "buffer_id", IndexValue::Int(5), 7),
        index_put(piece_table_name(), "list_number", IndexValue::Int(3), 7),
    ];
    assert_eq!(helper, expected);
}

#[test]
fn buffers_index_helper_matches_standard_insert_index_puts() {
    let helper = buffers_insert_index_puts(11, "channels", 42, "notes_pieces").unwrap();
    let expected = vec![
        index_put(buffer_table_name(), "owner_column", IndexValue::Text("notes_pieces".to_string()), 11),
        index_put(buffer_table_name(), "owner_row_id", IndexValue::Int(42), 11),
        index_put(buffer_table_name(), "owner_table", IndexValue::Text("channels".to_string()), 11),
    ];
    assert_eq!(helper, expected);
}

#[test]
fn resolve_coord_metrics_count_candidates_and_hops() {
    let mut reader = StubReader::default();
    reader.put_row(row(1, 9, 0, 2, piece_coord(5, 0, 8, false)));
    reader.put_row(row(2, 9, 1, 0, piece_coord(5, 8, 8, true)));
    reader.put_buffer_index(5, 1);
    reader.put_buffer_index(5, 2);

    let (_, metrics) = resolve_coord_with_metrics(
        &mut reader,
        9,
        BufferCoord { buffer_id: 5, byte_pos: 12 },
        ResolvePurpose::InsertAnchor,
    )
    .unwrap();
    assert_eq!(metrics, ResolveCoordMetrics { k_per_buffer: 2, tombstone_clamp_hops: 1 });
}

#[test]
fn index_deletes_name_the_keys_that_the_puts_wrote() {
    fn keys(ops: Vec<BatchOp>) -> Vec<StorageKey> {
        ops.iter().map(|op| op.key().clone()).collect()
    }
    assert_eq!(
        keys(piece_coords_delete_index_deletes(7, 3, 5).unwrap()),
        keys(piece_coords_insert_index_puts(7, 3, 5).unwrap())
    );
    assert_eq!(
        keys(buffers_delete_index_deletes(11, "channels", 42, "notes_pieces").unwrap()),
        keys(buffers_insert_index_puts(11, "channels", 42, "notes_pieces").unwrap())
    );
}

/// A row, indexed, at both ends of a list.
fn one_row() -> StubReader {
    let mut reader = StubReader::default();
    reader.put_row(row(1, 9, 0, 0, piece_coord(5, 0, 8, false)));
    reader.put_buffer_index(5, 1);
    reader.put_head(9, 1);
    reader.put_tail(9, 1);
    reader
}

/// The message that a resolution of a coordinate in buffer 5 is refused with.
fn refusal(reader: &mut StubReader) -> String {
    let coord = BufferCoord { buffer_id: 5, byte_pos: 4 };
    resolve_coord(reader, 9, coord, ResolvePurpose::InsertAnchor).unwrap_err().message()
}

/// The message where one column of the row holds another value.
fn refusal_with(column: PieceColumn, value: StoredValue) -> String {
    let mut reader = one_row();
    reader.put(piece_column_key(1, column), value);
    refusal(&mut reader)
}

#[test]
fn rows_are_refused_for_these_reasons() {
    assert_eq!(
        refusal_with(PieceColumn::NextId, StoredValue::Text("x".to_string())),
        "_piecetext_pieces[1].next_id is not an integer"
    );
    assert_eq!(
        refusal_with(PieceColumn::PrevId, StoredValue::Raw(vec![1])),
        "failed to decode _piecetext_pieces[1].prev_id"
    );
    assert_eq!(
        refusal_with(PieceColumn::StartByte, StoredValue::Int(-4)),
        "_piecetext_pieces[1].start_byte value -4 is outside u32 range"
    );
    assert_eq!(
        refusal_with(PieceColumn::LenBytes, StoredValue::Int(0)),
        "_piecetext_pieces row 1 has zero len_bytes"
    );
    assert_eq!(
        refusal_with(PieceColumn::Tombstone, StoredValue::Int(2)),
        "_piecetext_pieces row 1 has invalid tombstone value 2"
    );
    assert_eq!(
        refusal_with(PieceColumn::StartByte, StoredValue::Int(4294967292)),
        "_piecetext_pieces row 1 range overflows"
    );
    assert_eq!(
        refusal_with(PieceColumn::LenBytes, StoredValue::Int(6)),
        "_piecetext_pieces row 1: _piecetext_pieces coord is not UTF-32 aligned (start_byte=0, len_bytes=6); both must be multiples of 4"
    );
    let mut reader = one_row();
    reader.overrides.push((ReadOp::Key(piece_column_key(1, PieceColumn::NextId)), vec![]));
    assert_eq!(
        refusal(&mut reader),
        "_piecetext_pieces[1].next_id read returned 0 results, expected 1"
    );
}

#[test]
fn index_entries_are_refused_for_these_reasons() {
    let with_entry = |key: StorageKey, value: StoredValue| {
        let mut reader = StubReader::default();
        let read = ReadOp::IndexValue {
            table: piece_table_name(),
            column: "buffer_id".to_string(),
            value: IndexValue::Int(5),
        };
        reader.overrides.push((read, vec![(key, value)]));
        refusal(&mut reader)
    };
    let key = |table: String, column: &str, row_id: i64| StorageKey::Index {
        table,
        column: column.to_string(),
        value: IndexValue::Int(5),
        row_id,
    };
    assert_eq!(
        with_entry(key(buffer_table_name(), "buffer_id", 1), StoredValue::RowId(1)),
        "buffer_id range returned index for another table, expected _piecetext_pieces"
    );
    assert_eq!(
        with_entry(key(piece_table_name(), "list_number", 1), StoredValue::RowId(1)),
        "buffer_id range returned index for another column, expected buffer_id"
    );
    assert_eq!(
        with_entry(buffer_index_key(5, 1), StoredValue::RowId(2)),
        "buffer_id index entry for row 1 has wrong stored row_id value"
    );
    assert_eq!(
        with_entry(buffer_index_key(5, 0), StoredValue::RowId(0)),
        "buffer_id index entry row_id must be positive, got 0"
    );
    assert_eq!(
        with_entry(StorageKey::PieceHead { list_number: 9 }, StoredValue::RowId(1)),
        "buffer_id range returned non-index key"
    );
    assert_eq!(
        with_entry(StorageKey::Malformed { raw: vec![1], reason: "too short".to_string() }, StoredValue::RowId(1)),
        "failed to parse buffer_id index key"
    );
}

#[test]
fn endpoints_are_refused_for_these_reasons() {
    let start = |reader: &mut StubReader| {
        resolve_coord(reader, 9, BufferCoord::document_start(), ResolvePurpose::InsertAnchor)
            .unwrap_err()
            .message()
    };
    let mut reader = StubReader::default();
    assert_eq!(start(&mut reader), "piece_coords_head_key(9) read returned 0 results, expected 1");
    reader.put(StorageKey::PieceHead { list_number: 9 }, StoredValue::Raw(vec![0; 7]));
    assert_eq!(start(&mut reader), "piece_coords_head_key(9) has invalid length 7, expected 8");
}

#[test]
fn index_writes_need_positive_ids() {
    assert_eq!(
        piece_coords_insert_index_puts(0, 1, 1).unwrap_err().message(),
        "_piecetext_pieces index puts require positive row_id/list_number/buffer_id, got row_id=0, list_number=1, buffer_id=1"
    );
    assert_eq!(
        piece_coords_delete_index_deletes(1, -1, 1).unwrap_err().message(),
        "_piecetext_pieces index deletes require positive row_id/list_number/buffer_id, got row_id=1, list_number=-1, buffer_id=1"
    );
    assert_eq!(
        buffers_insert_index_puts(1, "t", 0, "c").unwrap_err().message(),
        "_piecetext_buffers index puts require positive row_id and owner_row_id, got row_id=1, owner_row_id=0"
    );
    assert_eq!(
        buffers_delete_index_deletes(0, "t", 1, "c").unwrap_err().message(),
        "_piecetext_buffers index deletes require positive row_id and owner_row_id, got row_id=0, owner_row_id=1"
    );
}

#[test]
fn eight_bytes_are_an_integer_and_back() {
    assert_eq!(i64_to_be(1), vec![0, 0, 0, 0, 0, 0, 0, 1]);
    assert_eq!(i64_to_be(-2), vec![255, 255, 255, 255, 255, 255, 255, 254]);
    assert_eq!(i64_from_be(&vec![128, 0, 0, 0, 0, 0, 0, 0]), i64::MIN);
    for i in [0, 1, -1, 258, i64::MAX, i64::MIN] {
        assert_eq!(i64_from_be(&i64_to_be(i)), i);
    }
}

#[test]
fn a_row_takes_one_read_for_each_of_its_columns() {
    let mut reader = StubReader::default();
    let stored = row(3, 9, 0, 0, piece_coord(5, 4, 8, true));
    reader.put_row(stored);
    assert_eq!(read_piece_coords_row(&mut reader, 3).unwrap(), stored);
    let columns = [
        PieceColumn::ListNumber,
        PieceColumn::PrevId,
        PieceColumn::NextId,
        PieceColumn::BufferId,
        PieceColumn::StartByte,
        PieceColumn::LenBytes,
        PieceColumn::Tombstone,
    ];
    let mut expected: Vec<String> =
        columns.iter().map(|c| format!("{:?}", ReadOp::Key(piece_column_key(3, *c)))).collect();
    let mut made: Vec<String> = reader.reads.borrow().iter().map(|op| format!("{op:?}")).collect();
    expected.sort();
    made.sort();
    assert_eq!(made, expected);
}

#[test]
fn no_row_is_read_without_a_positive_id() {
    let mut reader = StubReader::default();
    assert!(read_piece_coords_row(&mut reader, 0).is_err());
    assert!(read_piece_coords_row(&mut reader, -4).is_err());
    assert!(reader.reads.borrow().is_empty());
}

#[test]
fn malformed_coordinates_are_refused_unread() {
    let mut reader = StubReader::default();
    for (buffer_id, byte_pos) in [(5, 1), (-1, 4), (0, 4)] {
        let at = BufferCoord { buffer_id, byte_pos };
        assert!(resolve_coord(&mut reader, 9, at, ResolvePurpose::InsertAnchor).is_err());
    }
    assert!(reader.reads.borrow().is_empty());
}
