//! Edits on a document in the tree, staged in an overlay.

use std::cell::RefCell;
use std::collections::HashMap;
use std::rc::Rc;

use changelog_core::changelog::ChangelogError;
use changelog_core::piece_text::{
    BufferCoord, InsertedBufferManifest, PieceCoord, PieceTextAddress, PieceTextEditEnvelopeV1,
    PieceTextEditItemManifest, PieceTextEditManifest, PIECE_TEXT_ENVELOPE_VERSION_V1,
};
use changelog_core::piece_text_overlay::{IndexedPieceEditPlanner, OverlayPieceStore};
use changelog_core::piece_text_planner::{
    plan_edit, BufferMeta, BufferSnapshot, ClampDirection, PieceRow, PieceRowUpdate, PieceSnapshot,
    PlannerInput, PlannerOutput, ResolvePurpose,
};
use changelog_core::piece_text_resolution::{resolve_coord_core, EditError};
use changelog_core::piece_text_resolver::{piece_column_key, PieceColumn};
use changelog_core::storage::{
    i64_to_be, piece_table_name, IndexValue, OpReader, ProvenRead, ReadOp, StorageKey, StoredValue,
};

const LIST: i64 = 5;

/// A tree of keys and values, with a log of what was read of it.
#[derive(Default)]
struct StubReader {
    kv: Vec<(StorageKey, StoredValue)>,
    reads: Rc<RefCell<Vec<ReadOp>>>,
}

impl StubReader {
    fn put(&mut self, key: StorageKey, value: StoredValue) {
        self.kv.retain(|(k, _)| *k != key);
        self.kv.push((key, value));
    }

    fn remove(&mut self, key: &StorageKey) {
        self.kv.retain(|(k, _)| k != key);
    }
}

impl OpReader for StubReader {
    fn read(&mut self, op: ReadOp) -> Result<ProvenRead, ChangelogError> {
        self.reads.borrow_mut().push(op.clone());
        let mut results: Vec<(StorageKey, StoredValue)> = match &op {
            ReadOp::Key(key) | ReadOp::Bytes(key) => self
                .kv
                .iter()
                .filter(|(k, _)| k == key)
                .cloned()
                .collect(),
            ReadOp::IndexValue { table, column, value } => self
                .kv
                .iter()
                .filter(|(k, _)| match k {
                    StorageKey::Index { table: t, column: c, value: v, .. } => {
                        t == table && c == column && v == value
                    }
                    _ => false,
                })
                .cloned()
                .collect(),
        };
        results.sort_by_key(|(k, _)| match k {
            StorageKey::Index { row_id, .. } => *row_id,
            _ => 0,
        });
        Ok(ProvenRead { results })
    }
}

impl StubReader {
    fn reads_handle(&self) -> Rc<RefCell<Vec<ReadOp>>> {
        Rc::clone(&self.reads)
    }

    fn put_row(&mut self, row: &PieceRow) {
        for (column, value) in [
            (PieceColumn::ListNumber, row.list_number),
            (PieceColumn::PrevId, row.prev_id),
            (PieceColumn::NextId, row.next_id),
            (PieceColumn::BufferId, row.coord.buffer_id),
            (PieceColumn::StartByte, row.coord.start_byte as i64),
            (PieceColumn::LenBytes, row.coord.len_bytes as i64),
            (PieceColumn::Tombstone, if row.coord.tombstone { 1 } else { 0 }),
        ] {
            self.put(piece_column_key(row.id, column), StoredValue::Int(value));
        }
        self.put(
            StorageKey::Index {
                table: piece_table_name(),
                column: "buffer_id".to_string(),
                value: IndexValue::Int(row.coord.buffer_id),
                row_id: row.id,
            },
            StoredValue::RowId(row.id),
        );
    }

    fn put_ends(&mut self, head: i64, tail: i64) {
        self.put(StorageKey::PieceHead { list_number: LIST }, StoredValue::Raw(i64_to_be(head)));
        self.put(StorageKey::PieceTail { list_number: LIST }, StoredValue::Raw(i64_to_be(tail)));
    }
}

fn resolve_message(e: EditError<ChangelogError>) -> String {
    match e {
        EditError::Fault(f) => ChangelogError::Overlay(f).message(),
        EditError::Store(e) => e.message(),
    }
}

fn coord(buffer_id: i64, start_byte: u32, len_bytes: u32, tombstone: bool) -> PieceCoord {
    PieceCoord {
        buffer_id,
        start_byte,
        len_bytes,
        tombstone,
    }
}

fn inserted(len_bytes: u32, marker: u8) -> InsertedBufferManifest {
    InsertedBufferManifest {
        len_bytes,
        ciphertext_len: len_bytes + 16,
        ciphertext_value_hash: [marker; 32],
    }
}

fn row(id: i64, prev_id: i64, next_id: i64, c: PieceCoord) -> PieceRow {
    PieceRow {
        id,
        list_number: LIST,
        prev_id,
        next_id,
        coord: c,
    }
}

fn address() -> PieceTextAddress {
    PieceTextAddress {
        table: "docs".to_string(),
        row_id: 42,
        column: "body".to_string(),
    }
}

fn two_row_doc() -> StubReader {
    let mut reader = StubReader::default();
    reader.put_row(&row(1, 0, 2, coord(7, 0, 8, false)));
    reader.put_row(&row(2, 1, 0, coord(7, 8, 8, false)));
    reader.put_ends(1, 2);
    reader
}

fn store(reader: &mut StubReader) -> OverlayPieceStore<'_, StubReader> {
    OverlayPieceStore::new(reader, address(), LIST, 99, 1, 2, 3, 8).unwrap()
}

fn one_piece_doc() -> StubReader {
    let mut reader = StubReader::default();
    reader.put_row(&row(10, 0, 0, coord(5, 0, 8, false)));
    reader.put_ends(10, 10);
    reader
}

fn bc(buffer_id: i64, byte_pos: u32) -> BufferCoord {
    BufferCoord {
        buffer_id,
        byte_pos,
    }
}

fn delete_item(start: BufferCoord, end: BufferCoord) -> PieceTextEditItemManifest {
    PieceTextEditItemManifest::Delete { start, end }
}

fn doc(rows: &[PieceRow]) -> StubReader {
    let mut reader = StubReader::default();
    for r in rows {
        reader.put_row(r);
    }
    reader
}

fn assert_no_writes(out: &PlannerOutput) {
    assert!(out.piece_inserts.is_empty(), "{out:?}");
    assert!(out.piece_updates.is_empty(), "{out:?}");
    assert!(out.buffer_inserts.is_empty(), "{out:?}");
    assert_eq!(out.head_update, None);
    assert_eq!(out.tail_update, None);
    assert_eq!(out.piece_next_id_post, None);
    assert_eq!(out.buffers_next_id_post, None);
}

fn wide_one_piece_doc() -> StubReader {
    doc(&[row(10, 0, 0, coord(5, 0, 12, false))])
}

fn three_piece_doc() -> StubReader {
    doc(&[
        row(1, 0, 2, coord(1, 0, 4, false)),
        row(2, 1, 3, coord(2, 0, 4, false)),
        row(3, 2, 0, coord(3, 0, 4, false)),
    ])
}

#[test]
fn new_rejects_inconsistent_endpoints_and_counters() {
    let mut reader = StubReader::default();
    assert!(OverlayPieceStore::new(&mut reader, address(), LIST, 1, 1, 0, 3, 8).is_err());
    assert!(OverlayPieceStore::new(&mut reader, address(), LIST, 1, 9, 2, 3, 8).is_err());
    assert!(OverlayPieceStore::new(&mut reader, address(), LIST, 1, 0, 0, 0, 8).is_err());
    assert!(OverlayPieceStore::new(&mut reader, address(), 0, 1, 0, 0, 3, 8).is_err());
    assert!(OverlayPieceStore::new(&mut reader, address(), LIST, 1, 0, 0, 1, 1).is_ok());
}

#[test]
fn read_piece_row_point_reads_and_caches() {
    let mut reader = two_row_doc();
    let log = reader.reads_handle();
    let mut s = store(&mut reader);
    let got = s.read_piece_row(2).unwrap();
    assert_eq!(got, row(2, 1, 0, coord(7, 8, 8, false)));
    let reads_after_first = log.borrow().len();
    assert!(reads_after_first > 0);
    let again = s.read_piece_row(2).unwrap();
    assert_eq!(again, got);
    assert_eq!(log.borrow().len(), reads_after_first);
}

#[test]
fn read_piece_row_rejects_row_from_other_document() {
    let mut reader = StubReader::default();
    let mut foreign = row(1, 0, 0, coord(7, 0, 8, false));
    foreign.list_number = LIST + 1;
    reader.put_row(&foreign);
    let mut s = OverlayPieceStore::new(&mut reader, address(), LIST, 1, 0, 0, 2, 8).unwrap();
    let err = s.read_piece_row(1).unwrap_err().message();
    assert!(err.contains("belongs to list"), "{err}");
}

#[test]
fn clamp_rejects_zero_prev_pointer_that_is_not_head() {
    let mut reader = StubReader::default();
    reader.put_row(&row(2, 0, 0, coord(7, 0, 8, true)));
    reader.put_ends(1, 2);
    let mut s = OverlayPieceStore::new(&mut reader, address(), LIST, 99, 1, 2, 3, 8).unwrap();
    let err = resolve_message(
        resolve_coord_core(
        &mut s,
        BufferCoord {
            buffer_id: 7,
            byte_pos: 4,
        },
        ResolvePurpose::InsertAnchor,
    )
        .unwrap_err(),
    );
    assert!(err.contains("is not the document head"), "{err}");
}

#[test]
fn candidate_row_ids_merges_prestate_with_staged_and_caches_index() {
    let mut reader = two_row_doc();
    let log = reader.reads_handle();
    let mut s = store(&mut reader);
    assert_eq!(s.candidate_row_ids(7).unwrap(), vec![1, 2]);
    let reads_after_first = log.borrow().len();

    let new_id = s.alloc_piece_id().unwrap();
    assert_eq!(new_id, 3);
    s.insert_new_row(new_id, 0, 1, coord(7, 0, 4, false))
        .unwrap();
    assert_eq!(s.candidate_row_ids(7).unwrap(), vec![1, 2, 3]);
    assert_eq!(log.borrow().len(), reads_after_first);

    let trace = s.into_output().trace;
    assert_eq!(trace.index_lookups.len(), 2);
    assert_eq!(trace.index_lookups[1].returned_row_ids, vec![1, 2, 3]);
}

#[test]
fn resolve_coord_core_runs_over_overlay_via_indexed_reads() {
    let mut reader = two_row_doc();
    let log = reader.reads_handle();
    let mut s = store(&mut reader);
    let out = resolve_coord_core(
        &mut s,
        BufferCoord {
            buffer_id: 7,
            byte_pos: 8,
        },
        ResolvePurpose::InsertAnchor,
    )
    .unwrap();
    assert_eq!(out.candidate_count, 2);
    assert!(log.borrow().iter().all(|op| match op {
        ReadOp::Key(_) | ReadOp::Bytes(_) => true,
        ReadOp::IndexValue { column, .. } => column != "list_number",
    }));
}

#[test]
fn staged_updates_and_inserts_materialise_like_plan_edit() {
    let mut reader = two_row_doc();
    let mut s = store(&mut reader);

    let new_id = s.alloc_piece_id().unwrap();
    s.insert_new_row(new_id, 1, 2, coord(7, 0, 4, false))
        .unwrap();
    s.set_next(1, new_id).unwrap();
    s.set_prev(2, new_id).unwrap();

    let out = s.into_output();

    assert_eq!(out.piece_inserts.len(), 1);
    assert_eq!(out.piece_inserts[0].new_id, 3);
    assert_eq!(out.piece_inserts[0].prev_id, 1);
    assert_eq!(out.piece_inserts[0].next_id, 2);

    assert_eq!(out.piece_updates.len(), 2);
    assert_eq!(out.piece_updates[0].id, 1);
    assert_eq!(out.piece_updates[0].next_id, Some(3));
    assert_eq!(out.piece_updates[0].prev_id, None);
    assert_eq!(out.piece_updates[0].coord, None);
    assert_eq!(out.piece_updates[1].id, 2);
    assert_eq!(out.piece_updates[1].prev_id, Some(3));
    assert_eq!(out.piece_updates[1].next_id, None);

    assert_eq!(out.piece_next_id_post, Some(4));
    assert_eq!(out.head_update, None);
    assert_eq!(out.tail_update, None);
    assert!(out.buffer_inserts.is_empty());
    assert_eq!(out.buffers_next_id_post, None);
}

#[test]
fn head_tail_and_buffer_inserts_materialise() {
    let mut reader = two_row_doc();
    let mut s = store(&mut reader);

    let buf_id = s.alloc_buffer_id().unwrap();
    assert_eq!(buf_id, 8);
    s.stage_buffer_insert(buf_id, 4, [0xAB; 32]);
    let new_id = s.alloc_piece_id().unwrap();
    s.insert_new_row(new_id, 0, 1, coord(buf_id, 0, 4, false))
        .unwrap();
    s.set_prev(1, new_id).unwrap();
    s.set_head(new_id);

    let out = s.into_output();
    assert_eq!(out.head_update, Some(3));
    assert_eq!(out.tail_update, None);
    assert_eq!(out.buffer_inserts.len(), 1);
    assert_eq!(out.buffer_inserts[0].new_id, 8);
    assert_eq!(out.buffer_inserts[0].owner_table, "docs");
    assert_eq!(out.buffer_inserts[0].author_id, 99);
    assert_eq!(out.buffers_next_id_post, Some(9));
    assert_eq!(out.piece_next_id_post, Some(4));
}

#[test]
fn set_coord_tombstone_and_set_tail_materialise() {
    let mut reader = two_row_doc();
    let mut s = store(&mut reader);

    s.set_coord(2, coord(7, 8, 8, true)).unwrap();
    let buf_id = s.alloc_buffer_id().unwrap();
    s.stage_buffer_insert(buf_id, 4, [0xCD; 32]);
    let new_id = s.alloc_piece_id().unwrap();
    s.insert_new_row(new_id, 2, 0, coord(buf_id, 0, 4, false))
        .unwrap();
    s.set_next(2, new_id).unwrap();
    s.set_tail(new_id);

    let out = s.into_output();

    assert_eq!(out.piece_updates.len(), 1);
    let upd = &out.piece_updates[0];
    assert_eq!(upd.id, 2);
    assert_eq!(upd.next_id, Some(3));
    assert_eq!(upd.prev_id, None);
    assert_eq!(upd.coord, Some(coord(7, 8, 8, true)));

    assert_eq!(out.tail_update, Some(3));
    assert_eq!(out.head_update, None);
    assert_eq!(out.piece_inserts.len(), 1);
    assert_eq!(out.buffer_inserts.len(), 1);
}

#[test]
fn no_op_edit_materialises_empty_output() {
    let mut reader = two_row_doc();
    let mut planner =
        IndexedPieceEditPlanner::new(&mut reader, address(), LIST, 99, 1, 2, 3, 8).unwrap();
    planner.apply_ops(&[]).unwrap();
    let out = planner.into_output();
    assert_eq!(out, PlannerOutput::default());
}

#[test]
fn indexed_insert_empty_insert_into_empty_document() {
    let mut reader = StubReader::default();
    let mut planner =
        IndexedPieceEditPlanner::new(&mut reader, address(), LIST, 99, 0, 0, 1, 1).unwrap();
    planner
        .apply_ops(&[PieceTextEditItemManifest::Insert {
            at: BufferCoord::document_start(),
            inserted: inserted(4, 0xAA),
        }])
        .unwrap();
    let out = planner.into_output();

    assert_eq!(out.piece_inserts.len(), 1);
    let n = &out.piece_inserts[0];
    assert_eq!(n.new_id, 1);
    assert_eq!(n.prev_id, 0);
    assert_eq!(n.next_id, 0);
    assert_eq!(n.coord, coord(1, 0, 4, false));
    assert_eq!(out.buffer_inserts.len(), 1);
    assert_eq!(out.buffer_inserts[0].new_id, 1);
    assert_eq!(out.buffer_inserts[0].ciphertext_value_hash, [0xAA; 32]);
    assert_eq!(out.head_update, Some(1));
    assert_eq!(out.tail_update, Some(1));
    assert_eq!(out.piece_next_id_post, Some(2));
    assert_eq!(out.buffers_next_id_post, Some(2));
}

#[test]
fn indexed_insert_append_after_existing_piece() {
    let mut reader = one_piece_doc();
    let mut planner =
        IndexedPieceEditPlanner::new(&mut reader, address(), LIST, 99, 10, 10, 11, 6).unwrap();
    planner
        .apply_ops(&[PieceTextEditItemManifest::Insert {
            at: BufferCoord {
                buffer_id: 5,
                byte_pos: 8,
            },
            inserted: inserted(4, 0xBB),
        }])
        .unwrap();
    let out = planner.into_output();

    assert_eq!(out.piece_inserts.len(), 1);
    let n = &out.piece_inserts[0];
    assert_eq!(n.new_id, 11);
    assert_eq!(n.prev_id, 10);
    assert_eq!(n.next_id, 0);
    assert_eq!(n.coord, coord(6, 0, 4, false));
    assert_eq!(out.piece_updates.len(), 1);
    assert_eq!(out.piece_updates[0].id, 10);
    assert_eq!(out.piece_updates[0].next_id, Some(11));
    assert_eq!(out.piece_updates[0].prev_id, None);
    assert_eq!(out.piece_updates[0].coord, None);
    assert_eq!(out.head_update, None);
    assert_eq!(out.tail_update, Some(11));
}

#[test]
fn indexed_insert_split_inside_a_piece() {
    let mut reader = one_piece_doc();
    let mut planner =
        IndexedPieceEditPlanner::new(&mut reader, address(), LIST, 99, 10, 10, 11, 6).unwrap();
    planner
        .apply_ops(&[PieceTextEditItemManifest::Insert {
            at: BufferCoord {
                buffer_id: 5,
                byte_pos: 4,
            },
            inserted: inserted(4, 0xCC),
        }])
        .unwrap();
    let out = planner.into_output();

    assert_eq!(out.piece_inserts.len(), 2);
    let n = &out.piece_inserts[0];
    let r = &out.piece_inserts[1];
    assert_eq!(n.new_id, 11);
    assert_eq!(n.prev_id, 10);
    assert_eq!(n.next_id, 12);
    assert_eq!(n.coord, coord(6, 0, 4, false));
    assert_eq!(r.new_id, 12);
    assert_eq!(r.prev_id, 11);
    assert_eq!(r.next_id, 0);
    assert_eq!(r.coord, coord(5, 4, 4, false));

    assert_eq!(out.piece_updates.len(), 1);
    let update = &out.piece_updates[0];
    assert_eq!(update.id, 10);
    assert_eq!(update.next_id, Some(11));
    assert_eq!(update.coord, Some(coord(5, 0, 4, false)));
    assert_eq!(out.tail_update, Some(12));
    assert_eq!(out.piece_next_id_post, Some(13));
}

#[test]
fn indexed_insert_same_coordinate_inserts_render_newest_first() {
    let mut reader = StubReader::default();
    let mut planner =
        IndexedPieceEditPlanner::new(&mut reader, address(), LIST, 99, 0, 0, 1, 1).unwrap();
    planner
        .apply_ops(&[
            PieceTextEditItemManifest::Insert {
                at: BufferCoord::document_start(),
                inserted: inserted(4, 0x01),
            },
            PieceTextEditItemManifest::Insert {
                at: BufferCoord::document_start(),
                inserted: inserted(4, 0x02),
            },
            PieceTextEditItemManifest::Insert {
                at: BufferCoord::document_start(),
                inserted: inserted(4, 0x03),
            },
        ])
        .unwrap();
    let out = planner.into_output();

    assert_eq!(out.piece_inserts.len(), 3);
    let t1 = &out.piece_inserts[0];
    let t2 = &out.piece_inserts[1];
    let t3 = &out.piece_inserts[2];
    assert_eq!(t1.new_id, 1);
    assert_eq!(t2.new_id, 2);
    assert_eq!(t3.new_id, 3);
    assert_eq!(t3.prev_id, 0);
    assert_eq!(t3.next_id, 2);
    assert_eq!(t2.prev_id, 3);
    assert_eq!(t2.next_id, 1);
    assert_eq!(t1.prev_id, 2);
    assert_eq!(t1.next_id, 0);
    assert_eq!(out.head_update, Some(3));
    assert_eq!(out.tail_update, Some(1));
}

#[test]
fn indexed_insert_inside_tombstone_back_clamps_to_live_predecessor() {
    let mut reader = StubReader::default();
    reader.put_row(&row(1, 0, 2, coord(5, 0, 4, false)));
    reader.put_row(&row(2, 1, 3, coord(5, 4, 4, true)));
    reader.put_row(&row(3, 2, 0, coord(5, 8, 4, false)));
    let mut planner =
        IndexedPieceEditPlanner::new(&mut reader, address(), LIST, 99, 1, 3, 4, 6).unwrap();
    planner
        .apply_ops(&[PieceTextEditItemManifest::Insert {
            at: BufferCoord {
                buffer_id: 5,
                byte_pos: 8,
            },
            inserted: inserted(4, 0xDD),
        }])
        .unwrap();
    let out = planner.into_output();

    assert_eq!(out.trace.clamp_walks.len(), 1);
    let walk = &out.trace.clamp_walks[0];
    assert_eq!(walk.start_row_id, 2);
    assert_eq!(walk.direction, ClampDirection::Backward);
    assert_eq!(walk.purpose, ResolvePurpose::InsertAnchor);
    assert_eq!(walk.hops, 1);
    assert_eq!(walk.end_row_id, Some(1));

    let n = &out.piece_inserts[0];
    assert_eq!(n.prev_id, 1);
    assert_eq!(n.next_id, 2);
    assert_eq!(out.piece_updates[0].id, 1);
    assert_eq!(out.piece_updates[0].next_id, Some(4));
    assert_eq!(out.piece_updates[1].id, 2);
    assert_eq!(out.piece_updates[1].prev_id, Some(4));
}

#[test]
fn indexed_insert_after_row_changed_earlier_in_same_edit() {
    let mut reader = one_piece_doc();
    let mut planner =
        IndexedPieceEditPlanner::new(&mut reader, address(), LIST, 99, 10, 10, 11, 6).unwrap();
    planner
        .apply_ops(&[
            PieceTextEditItemManifest::Insert {
                at: BufferCoord {
                    buffer_id: 5,
                    byte_pos: 4,
                },
                inserted: inserted(4, 0x11),
            },
            PieceTextEditItemManifest::Insert {
                at: BufferCoord {
                    buffer_id: 5,
                    byte_pos: 4,
                },
                inserted: inserted(4, 0x22),
            },
        ])
        .unwrap();
    let out = planner.into_output();

    assert_eq!(out.piece_inserts.len(), 3);
    assert_eq!(out.piece_inserts[0].new_id, 11);
    assert_eq!(out.piece_inserts[0].prev_id, 13);
    assert_eq!(out.piece_inserts[0].next_id, 12);
    assert_eq!(out.piece_inserts[1].new_id, 12);
    assert_eq!(out.piece_inserts[1].prev_id, 11);
    assert_eq!(out.piece_inserts[1].next_id, 0);
    let second_insert = &out.piece_inserts[2];
    assert_eq!(second_insert.new_id, 13);
    assert_eq!(second_insert.prev_id, 10);
    assert_eq!(second_insert.next_id, 11);
    assert_eq!(second_insert.coord.buffer_id, 7);

    assert_eq!(out.piece_updates.len(), 1);
    let p = &out.piece_updates[0];
    assert_eq!(p.id, 10);
    assert_eq!(p.next_id, Some(13));
    assert_eq!(p.coord, Some(coord(5, 0, 4, false)));
    assert_eq!(out.tail_update, Some(12));
    assert_eq!(out.piece_next_id_post, Some(14));
    assert_eq!(out.buffers_next_id_post, Some(8));
}

#[test]
fn indexed_insert_rejects_coord_targeting_buffer_allocated_in_same_edit() {
    let mut reader = StubReader::default();
    let mut planner =
        IndexedPieceEditPlanner::new(&mut reader, address(), LIST, 99, 0, 0, 1, 1).unwrap();
    let err = planner
        .apply_ops(&[
            PieceTextEditItemManifest::Insert {
                at: BufferCoord::document_start(),
                inserted: inserted(4, 0x01),
            },
            PieceTextEditItemManifest::Insert {
                at: BufferCoord {
                    buffer_id: 1,
                    byte_pos: 4,
                },
                inserted: inserted(4, 0x02),
            },
        ])
        .unwrap_err()
        .message();
    assert!(err.contains("allocated by an earlier Insert"), "{err}");
}

#[test]
fn indexed_insert_rejects_overlapping_candidate_rows_for_buffer() {
    let mut reader = StubReader::default();
    reader.put_row(&row(1, 0, 2, coord(5, 0, 8, false)));
    reader.put_row(&row(2, 1, 0, coord(5, 4, 8, false)));
    let mut planner =
        IndexedPieceEditPlanner::new(&mut reader, address(), LIST, 99, 1, 2, 3, 6).unwrap();
    let err = planner
        .apply_ops(&[PieceTextEditItemManifest::Insert {
            at: BufferCoord {
                buffer_id: 5,
                byte_pos: 4,
            },
            inserted: inserted(4, 0x33),
        }])
        .unwrap_err()
        .message();
    assert!(err.contains("overlap for buffer_id 5"), "{err}");
}

#[test]
fn insert_new_row_rejects_double_allocation() {
    let mut reader = two_row_doc();
    let mut s = store(&mut reader);
    s.insert_new_row(3, 0, 1, coord(7, 0, 4, false)).unwrap();
    let err = s
        .insert_new_row(3, 0, 1, coord(7, 0, 4, false))
        .unwrap_err()
        .message();
    assert!(err.contains("double-allocated"), "{err}");
}

#[test]
fn indexed_delete_whole_piece_only_flips_tombstone() {
    let mut reader = three_piece_doc();
    let mut planner =
        IndexedPieceEditPlanner::new(&mut reader, address(), LIST, 99, 1, 3, 4, 4).unwrap();
    planner
        .apply_ops(&[delete_item(bc(2, 0), bc(2, 4))])
        .unwrap();
    let out = planner.into_output();

    assert!(out.piece_inserts.is_empty());
    assert!(out.buffer_inserts.is_empty());
    assert_eq!(out.piece_updates.len(), 1);
    let upd = &out.piece_updates[0];
    assert_eq!(upd.id, 2);
    assert!(upd.prev_id.is_none());
    assert!(upd.next_id.is_none());
    assert_eq!(upd.coord, Some(coord(2, 0, 4, true)));
    assert_eq!(out.piece_next_id_post, None);
    assert_eq!(out.buffers_next_id_post, None);
    assert_eq!(out.head_update, None);
    assert_eq!(out.tail_update, None);
}

#[test]
fn indexed_delete_ragged_center_within_one_piece() {
    let mut reader = wide_one_piece_doc();
    let mut planner =
        IndexedPieceEditPlanner::new(&mut reader, address(), LIST, 99, 10, 10, 11, 6).unwrap();
    planner
        .apply_ops(&[delete_item(bc(5, 4), bc(5, 8))])
        .unwrap();
    let out = planner.into_output();

    assert_eq!(out.piece_inserts.len(), 2);
    let m = &out.piece_inserts[0];
    let r = &out.piece_inserts[1];
    assert_eq!(m.new_id, 11);
    assert_eq!(r.new_id, 12);
    assert_eq!(m.coord, coord(5, 4, 4, true));
    assert_eq!(m.prev_id, 10);
    assert_eq!(m.next_id, 12);
    assert_eq!(r.coord, coord(5, 8, 4, false));
    assert_eq!(r.prev_id, 11);
    assert_eq!(r.next_id, 0);

    assert_eq!(out.piece_updates.len(), 1);
    let p = &out.piece_updates[0];
    assert_eq!(p.id, 10);
    assert_eq!(p.next_id, Some(11));
    assert_eq!(p.coord, Some(coord(5, 0, 4, false)));
    assert_eq!(out.tail_update, Some(12));
    assert_eq!(out.head_update, None);
    assert_eq!(out.piece_next_id_post, Some(13));
}

#[test]
fn indexed_delete_ragged_left_within_one_piece() {
    let mut reader = wide_one_piece_doc();
    let mut planner =
        IndexedPieceEditPlanner::new(&mut reader, address(), LIST, 99, 10, 10, 11, 6).unwrap();
    planner
        .apply_ops(&[delete_item(bc(5, 4), bc(5, 12))])
        .unwrap();
    let out = planner.into_output();

    assert_eq!(out.piece_inserts.len(), 1);
    let m = &out.piece_inserts[0];
    assert_eq!(m.new_id, 11);
    assert_eq!(m.coord, coord(5, 4, 8, true));
    assert_eq!(m.prev_id, 10);
    assert_eq!(m.next_id, 0);

    assert_eq!(out.piece_updates.len(), 1);
    let p = &out.piece_updates[0];
    assert_eq!(p.id, 10);
    assert_eq!(p.next_id, Some(11));
    assert_eq!(p.coord, Some(coord(5, 0, 4, false)));
    assert_eq!(out.tail_update, Some(11));
    assert_eq!(out.head_update, None);
}

#[test]
fn indexed_delete_ragged_right_within_one_piece() {
    let mut reader = wide_one_piece_doc();
    let mut planner =
        IndexedPieceEditPlanner::new(&mut reader, address(), LIST, 99, 10, 10, 11, 6).unwrap();
    planner
        .apply_ops(&[delete_item(bc(5, 0), bc(5, 8))])
        .unwrap();
    let out = planner.into_output();

    assert_eq!(out.piece_inserts.len(), 1);
    let m = &out.piece_inserts[0];
    assert_eq!(m.coord, coord(5, 8, 4, false));
    assert_eq!(m.prev_id, 10);
    assert_eq!(m.next_id, 0);

    assert_eq!(out.piece_updates.len(), 1);
    let p = &out.piece_updates[0];
    assert_eq!(p.id, 10);
    assert_eq!(p.next_id, Some(11));
    assert_eq!(p.coord, Some(coord(5, 0, 8, true)));
    assert_eq!(out.tail_update, Some(11));
    assert_eq!(out.head_update, None);
}

#[test]
fn indexed_delete_across_multiple_pieces() {
    let mut reader = doc(&[
        row(1, 0, 2, coord(1, 0, 8, false)),
        row(2, 1, 3, coord(2, 0, 4, false)),
        row(3, 2, 0, coord(3, 0, 8, false)),
    ]);
    let mut planner =
        IndexedPieceEditPlanner::new(&mut reader, address(), LIST, 99, 1, 3, 4, 4).unwrap();
    planner
        .apply_ops(&[delete_item(bc(1, 4), bc(3, 4))])
        .unwrap();
    let out = planner.into_output();

    assert_eq!(out.piece_inserts.len(), 2);
    let ml = &out.piece_inserts[0];
    let mr = &out.piece_inserts[1];
    assert_eq!(ml.new_id, 4);
    assert_eq!(mr.new_id, 5);
    assert_eq!(ml.coord, coord(1, 4, 4, true));
    assert_eq!(ml.prev_id, 1);
    assert_eq!(ml.next_id, 2);
    assert_eq!(mr.coord, coord(3, 4, 4, false));
    assert_eq!(mr.prev_id, 3);
    assert_eq!(mr.next_id, 0);

    let updates: HashMap<i64, &PieceRowUpdate> =
        out.piece_updates.iter().map(|u| (u.id, u)).collect();
    assert_eq!(updates.len(), 3);
    assert_eq!(updates[&1].next_id, Some(4));
    assert_eq!(updates[&1].coord, Some(coord(1, 0, 4, false)));
    assert!(updates[&1].prev_id.is_none());
    assert_eq!(updates[&2].prev_id, Some(4));
    assert_eq!(updates[&2].coord, Some(coord(2, 0, 4, true)));
    assert!(updates[&2].next_id.is_none());
    assert_eq!(updates[&3].next_id, Some(5));
    assert_eq!(updates[&3].coord, Some(coord(3, 0, 4, true)));
    assert!(updates[&3].prev_id.is_none());

    assert_eq!(out.tail_update, Some(5));
    assert_eq!(out.head_update, None);
    assert_eq!(out.piece_next_id_post, Some(6));
}

#[test]
fn indexed_delete_start_end_clamp_through_tombstone_runs() {
    let mut reader = doc(&[
        row(1, 0, 2, coord(1, 0, 8, true)),
        row(2, 1, 3, coord(2, 0, 4, false)),
        row(3, 2, 0, coord(3, 0, 8, true)),
    ]);
    let mut planner =
        IndexedPieceEditPlanner::new(&mut reader, address(), LIST, 99, 1, 3, 4, 4).unwrap();
    planner
        .apply_ops(&[delete_item(bc(1, 4), bc(3, 4))])
        .unwrap();
    let out = planner.into_output();

    let forward: Vec<_> = out
        .trace
        .clamp_walks
        .iter()
        .filter(|w| w.direction == ClampDirection::Forward)
        .collect();
    let backward: Vec<_> = out
        .trace
        .clamp_walks
        .iter()
        .filter(|w| w.direction == ClampDirection::Backward)
        .collect();
    assert_eq!(forward.len(), 1);
    assert_eq!(forward[0].purpose, ResolvePurpose::DeleteStart);
    assert_eq!(forward[0].end_row_id, Some(2));
    assert_eq!(backward.len(), 1);
    assert_eq!(backward[0].purpose, ResolvePurpose::DeleteEnd);
    assert_eq!(backward[0].end_row_id, Some(2));

    assert!(out.piece_inserts.is_empty());
    assert_eq!(out.piece_updates.len(), 1);
    assert_eq!(out.piece_updates[0].id, 2);
    assert_eq!(out.piece_updates[0].coord, Some(coord(2, 0, 4, true)));
}

#[test]
fn indexed_delete_inside_all_tombstoned_chain_is_noop() {
    let mut reader = doc(&[
        row(1, 0, 2, coord(5, 0, 8, true)),
        row(2, 1, 0, coord(5, 8, 8, true)),
    ]);
    let mut planner =
        IndexedPieceEditPlanner::new(&mut reader, address(), LIST, 99, 1, 2, 3, 6).unwrap();
    planner
        .apply_ops(&[delete_item(bc(5, 4), bc(5, 12))])
        .unwrap();
    let out = planner.into_output();
    assert_no_writes(&out);
}

#[test]
fn indexed_delete_zero_width_at_inter_row_boundary_is_noop() {
    let mut reader = two_row_doc();
    let mut planner =
        IndexedPieceEditPlanner::new(&mut reader, address(), LIST, 99, 1, 2, 3, 8).unwrap();
    planner
        .apply_ops(&[delete_item(bc(7, 8), bc(7, 8))])
        .unwrap();
    let out = planner.into_output();
    assert_no_writes(&out);
}

#[test]
fn indexed_delete_at_document_start_collapsed_is_noop() {
    let mut reader = two_row_doc();
    let mut planner =
        IndexedPieceEditPlanner::new(&mut reader, address(), LIST, 99, 1, 2, 3, 8).unwrap();
    planner
        .apply_ops(&[delete_item(
            BufferCoord::document_start(),
            BufferCoord::document_start(),
        )])
        .unwrap();
    let out = planner.into_output();
    assert_no_writes(&out);
}

#[test]
fn indexed_delete_rejects_inverted_range() {
    let mut reader = two_row_doc();
    let mut planner =
        IndexedPieceEditPlanner::new(&mut reader, address(), LIST, 99, 1, 2, 3, 8).unwrap();
    let err = planner
        .apply_ops(&[delete_item(bc(7, 12), bc(7, 4))])
        .unwrap_err()
        .message();
    assert!(
        err.contains("delete start resolved past delete end"),
        "{err}"
    );
}

#[test]
fn indexed_delete_then_insert_at_deleted_boundary() {
    let mut reader = wide_one_piece_doc();
    let mut planner =
        IndexedPieceEditPlanner::new(&mut reader, address(), LIST, 99, 10, 10, 11, 6).unwrap();
    planner
        .apply_ops(&[
            delete_item(bc(5, 4), bc(5, 8)),
            PieceTextEditItemManifest::Insert {
                at: bc(5, 4),
                inserted: inserted(4, 0xFE),
            },
        ])
        .unwrap();
    let out = planner.into_output();

    assert_eq!(out.piece_inserts.len(), 3);
    assert_eq!(out.piece_inserts[0].new_id, 11);
    assert_eq!(out.piece_inserts[1].new_id, 12);
    assert_eq!(out.piece_inserts[2].new_id, 13);

    let n = &out.piece_inserts[2];
    assert_eq!(n.prev_id, 10);
    assert_eq!(n.next_id, 11);
    assert_eq!(n.coord.buffer_id, 6);
    assert_eq!(n.coord.len_bytes, 4);

    assert_eq!(out.piece_inserts[0].prev_id, 13);
    assert_eq!(out.piece_inserts[0].next_id, 12);
    assert_eq!(out.piece_inserts[1].prev_id, 11);
    assert_eq!(out.piece_inserts[1].next_id, 0);

    let p = out
        .piece_updates
        .iter()
        .find(|u| u.id == 10)
        .expect("update for P");
    assert_eq!(p.next_id, Some(13));
    assert_eq!(p.coord, Some(coord(5, 0, 4, false)));
    assert_eq!(out.tail_update, Some(12));
    assert_eq!(out.head_update, None);
}

#[test]
fn indexed_delete_overlapping_sequential_deletes_idempotent_in_overlap() {
    let mut reader = doc(&[
        row(1, 0, 2, coord(1, 0, 8, false)),
        row(2, 1, 3, coord(2, 0, 4, false)),
        row(3, 2, 0, coord(3, 0, 8, false)),
    ]);
    let mut planner =
        IndexedPieceEditPlanner::new(&mut reader, address(), LIST, 99, 1, 3, 4, 4).unwrap();
    planner
        .apply_ops(&[
            delete_item(bc(1, 0), bc(1, 8)),
            delete_item(bc(1, 4), bc(3, 4)),
        ])
        .unwrap();
    let out = planner.into_output();

    let forward: Vec<_> = out
        .trace
        .clamp_walks
        .iter()
        .filter(|w| w.direction == ClampDirection::Forward)
        .collect();
    assert!(!forward.is_empty());
    assert_eq!(forward[0].purpose, ResolvePurpose::DeleteStart);
    assert_eq!(forward[0].hops, 1);
    assert_eq!(forward[0].end_row_id, Some(2));

    let updates: HashMap<i64, &PieceRowUpdate> =
        out.piece_updates.iter().map(|u| (u.id, u)).collect();
    assert_eq!(updates[&1].coord, Some(coord(1, 0, 8, true)));
    assert!(updates[&2].coord.unwrap().tombstone);

    assert_eq!(out.piece_inserts.len(), 1);
    let mr = &out.piece_inserts[0];
    assert_eq!(mr.coord, coord(3, 4, 4, false));
}

#[test]
fn store_mut_exposes_primitives_through_planner() {
    let mut reader = two_row_doc();
    let mut planner =
        IndexedPieceEditPlanner::new(&mut reader, address(), LIST, 99, 1, 2, 3, 8).unwrap();
    let head = planner.store_mut().read_head();
    assert_eq!(head, 1);
    assert_eq!(planner.store_mut().read_tail(), 2);
}

/// An edit of three rows planned in the tree and in memory: the messages that it is
/// refused with, or what it writes.
fn planned_both_ways(
    ops: Vec<PieceTextEditItemManifest>,
) -> (Result<PlannerOutput, String>, Result<PlannerOutput, String>) {
    let rows = [
        row(1, 0, 2, coord(1, 0, 4, false)),
        row(2, 1, 3, coord(2, 0, 8, true)),
        row(3, 2, 0, coord(3, 0, 12, false)),
    ];
    planned_on_rows(&rows, &[(1, 4), (2, 8), (3, 12)], ops)
}

/// The same on other rows, which begin with the head 1 and end with the tail 3.
fn planned_on_rows(
    rows: &[PieceRow],
    lengths: &[(i64, u32)],
    ops: Vec<PieceTextEditItemManifest>,
) -> (Result<PlannerOutput, String>, Result<PlannerOutput, String>) {
    let next_piece_id = rows.len() as i64 + 1;
    let next_buffer_id = lengths.len() as i64 + 1;
    let mut reader = doc(rows);
    reader.put_ends(1, 3);
    let mut planner = IndexedPieceEditPlanner::new(
        &mut reader, address(), LIST, 99, 1, 3, next_piece_id, next_buffer_id,
    )
    .unwrap();
    let in_tree = match planner.apply_ops(&ops) {
        Ok(_) => Ok(planner.into_output()),
        Err(e) => Err(e.message()),
    };
    let envelope = PieceTextEditEnvelopeV1 {
        version: PIECE_TEXT_ENVELOPE_VERSION_V1,
        op_id: [1u8; 16],
        address: address(),
        edit: PieceTextEditManifest { ops },
    };
    let in_memory = plan_edit(PlannerInput {
        envelope: &envelope,
        pieces: PieceSnapshot {
            list_number: LIST,
            head_id: 1,
            tail_id: 3,
            pieces: rows.to_vec(),
            pre_piece_next_id: next_piece_id,
        },
        buffers: BufferSnapshot {
            buffers: lengths
                .iter()
                .map(|(id, len_bytes)| BufferMeta {
                    id: *id,
                    owner_table: address().table,
                    owner_row_id: address().row_id,
                    owner_column: address().column,
                    author_id: 99,
                    len_bytes: *len_bytes,
                })
                .collect(),
            pre_buffers_next_id: next_buffer_id,
        },
        author_id: 99,
    });
    (in_tree, in_memory.map_err(|e| e.message()))
}

#[test]
fn edits_in_the_tree_and_in_memory_write_the_same() {
    let insert = |at: BufferCoord| PieceTextEditItemManifest::Insert { at, inserted: inserted(8, 7) };
    for ops in [
        vec![insert(BufferCoord::document_start())],
        vec![insert(bc(3, 4)), insert(bc(2, 4))],
        vec![delete_item(bc(1, 0), bc(3, 8))],
        vec![delete_item(bc(3, 4), bc(3, 8)), insert(bc(3, 8)), delete_item(bc(1, 4), bc(3, 4))],
    ] {
        let (in_tree, in_memory) = planned_both_ways(ops);
        let mut in_tree = in_tree.unwrap();
        let in_memory = in_memory.unwrap();
        assert!(!in_memory.piece_inserts.is_empty() || !in_memory.piece_updates.is_empty());
        in_tree.trace = in_memory.trace.clone();
        assert_eq!(in_tree, in_memory);
    }
    for ops in [
        vec![insert(bc(3, 16))],
        vec![delete_item(bc(3, 4), bc(1, 0))],
        vec![insert(bc(1, 4)), insert(bc(4, 0))],
    ] {
        let (in_tree, in_memory) = planned_both_ways(ops);
        assert!(in_tree.is_err());
        assert!(in_memory.is_err());
    }
}

/// Beside the chain there are a ring of two rows that lie apart and one of two
/// that overlap.
#[test]
fn rows_off_the_chain_are_edited_alike() {
    let rows = [
        row(1, 0, 2, coord(1, 0, 4, false)),
        row(2, 1, 3, coord(2, 0, 8, true)),
        row(3, 2, 0, coord(3, 0, 12, false)),
        row(4, 5, 5, coord(4, 0, 8, false)),
        row(5, 4, 4, coord(4, 4, 8, false)),
        row(6, 7, 7, coord(5, 0, 8, false)),
        row(7, 6, 6, coord(5, 8, 8, false)),
    ];
    let lengths = [(1, 4), (2, 8), (3, 12), (4, 12), (5, 16)];
    let insert = |at: BufferCoord| PieceTextEditItemManifest::Insert { at, inserted: inserted(8, 7) };
    for ops in [
        vec![insert(bc(3, 4))],
        vec![insert(bc(5, 4)), insert(bc(5, 16))],
        vec![delete_item(bc(5, 4), bc(5, 12)), delete_item(bc(1, 0), bc(3, 8))],
    ] {
        let (in_tree, in_memory) = planned_on_rows(&rows, &lengths, ops);
        let mut in_tree = in_tree.unwrap();
        let in_memory = in_memory.unwrap();
        in_tree.trace = in_memory.trace.clone();
        assert_eq!(in_tree, in_memory);
    }
    for ops in [vec![insert(bc(4, 2))], vec![insert(bc(3, 4)), delete_item(bc(1, 0), bc(4, 12))]] {
        let (in_tree, in_memory) = planned_on_rows(&rows, &lengths, ops);
        assert!(in_tree.is_err());
        assert!(in_memory.is_err());
    }
}

#[test]
fn edits_in_the_tree_are_refused_for_these_reasons() {
    let refusal = |ops: Vec<PieceTextEditItemManifest>| planned_both_ways(ops).0.unwrap_err();
    let insert = |at: BufferCoord, len_bytes: u32| PieceTextEditItemManifest::Insert {
        at,
        inserted: inserted(len_bytes, 7),
    };
    assert_eq!(
        refusal(vec![insert(bc(3, 16), 4)]),
        "piece_text_overlay: unknown coordinate (buffer_id=3, byte_pos=16, purpose=InsertAnchor): no live or tombstoned piece covers this byte coordinate"
    );
    assert_eq!(
        refusal(vec![delete_item(bc(3, 4), bc(1, 0))]),
        "piece_text_overlay: delete start resolved past delete end"
    );
    assert_eq!(
        refusal(vec![insert(bc(1, 4), 0)]),
        "piece_text_overlay: Insert.len_bytes must be > 0"
    );
    assert_eq!(
        refusal(vec![insert(bc(1, 4), 4), insert(bc(4, 0), 4)]),
        "piece_text_overlay: edit op 1 targets buffer_id 4 allocated by an earlier Insert in this same edit"
    );
}

#[test]
fn overlays_are_refused_for_these_reasons() {
    let refusal = |list_number: i64, ends: (i64, i64), next_ids: (i64, i64)| {
        let mut reader = StubReader::default();
        match OverlayPieceStore::new(
            &mut reader, address(), list_number, 1, ends.0, ends.1, next_ids.0, next_ids.1,
        ) {
            Ok(_) => panic!("accepted"),
            Err(e) => e.message(),
        }
    };
    assert_eq!(
        refusal(0, (0, 0), (1, 1)),
        "piece_text_overlay: list_number must be positive, got 0"
    );
    assert_eq!(
        refusal(5, (0, 0), (0, 1)),
        "piece_text_overlay: pre_piece_next_id must be >= 1, got 0"
    );
    assert_eq!(
        refusal(5, (0, 0), (1, 0)),
        "piece_text_overlay: pre_buffers_next_id must be >= 1, got 0"
    );
    assert_eq!(
        refusal(5, (-1, 0), (1, 1)),
        "piece_text_overlay: head_id/tail_id must be non-negative, got head=-1 tail=0"
    );
    assert_eq!(
        refusal(5, (1, 0), (3, 1)),
        "piece_text_overlay: head_id and tail_id must both be 0 or both be non-zero, got head=1 tail=0"
    );
    assert_eq!(
        refusal(5, (1, 4), (3, 1)),
        "piece_text_overlay: head_id/tail_id must be < pre_piece_next_id 3, got head=1 tail=4"
    );
}

#[test]
fn a_new_store_has_read_nothing() {
    let mut reader = two_row_doc();
    let log = reader.reads_handle();
    let s = store(&mut reader);
    assert_eq!(s.read_head(), 1);
    assert_eq!(s.read_tail(), 2);
    assert!(log.borrow().is_empty());
}

#[test]
fn lookups_read_the_index_once() {
    let mut reader = two_row_doc();
    let log = reader.reads_handle();
    let mut s = store(&mut reader);
    s.candidate_row_ids(7).unwrap();
    s.candidate_row_ids(7).unwrap();
    assert_eq!(
        *log.borrow(),
        vec![ReadOp::IndexValue {
            table: piece_table_name(),
            column: "buffer_id".to_string(),
            value: IndexValue::Int(7),
        }]
    );
}

#[test]
fn a_row_set_back_has_no_update() {
    let mut reader = two_row_doc();
    let mut s = store(&mut reader);
    s.set_next(1, 9).unwrap();
    s.set_prev(2, 9).unwrap();
    s.set_coord(1, coord(7, 0, 8, true)).unwrap();
    s.set_next(1, 2).unwrap();
    s.set_coord(1, coord(7, 0, 8, false)).unwrap();
    s.set_head(2);
    s.set_head(1);
    s.set_tail(1);
    let out = s.into_output();
    assert_eq!(
        out.piece_updates,
        vec![PieceRowUpdate { id: 2, prev_id: Some(9), next_id: None, coord: None }]
    );
    assert!(out.piece_inserts.is_empty());
    assert_eq!(out.head_update, None);
    assert_eq!(out.tail_update, Some(1));
}
