//! Edits planned in memory, on snapshots of documents.

use std::collections::HashMap;

use changelog_core::piece_text::{
    BufferCoord, InsertedBufferManifest, PieceCoord, PieceTextAddress, PieceTextEditEnvelopeV1,
    PieceTextEditItemManifest, PieceTextEditManifest, PIECE_TEXT_ENVELOPE_VERSION_V1,
};
use changelog_core::piece_text_planner::{
    plan_edit, BufferMeta, BufferSnapshot, ClampDirection, ClampWalk, PieceRow, PieceRowUpdate,
    PieceSnapshot, PlannerError, PlannerInput, PlannerOutput, ResolvePurpose, WorkingCopy,
};

const TABLE: &str = "channels";
const COLUMN: &str = "notes_pieces";
const PARENT_ROW: i64 = 7;
const LIST_NUMBER: i64 = 1;
const AUTHOR: i64 = 100;

fn address() -> PieceTextAddress {
    PieceTextAddress {
        table: TABLE.to_string(),
        row_id: PARENT_ROW,
        column: COLUMN.to_string(),
    }
}

fn envelope(ops: Vec<PieceTextEditItemManifest>) -> PieceTextEditEnvelopeV1 {
    PieceTextEditEnvelopeV1 {
        version: PIECE_TEXT_ENVELOPE_VERSION_V1,
        op_id: [1u8; 16],
        address: address(),
        edit: PieceTextEditManifest { ops },
    }
}

fn buffer_meta(id: i64, len_bytes: u32) -> BufferMeta {
    BufferMeta {
        id,
        owner_table: TABLE.to_string(),
        owner_row_id: PARENT_ROW,
        owner_column: COLUMN.to_string(),
        author_id: AUTHOR,
        len_bytes,
    }
}

fn manifest(len_bytes: u32, byte_marker: u8) -> InsertedBufferManifest {
    InsertedBufferManifest {
        len_bytes,
        ciphertext_len: len_bytes + 16,
        ciphertext_value_hash: [byte_marker; 32],
    }
}

fn run(
    pieces: PieceSnapshot,
    buffers: BufferSnapshot,
    env: &PieceTextEditEnvelopeV1,
) -> Result<PlannerOutput, PlannerError> {
    plan_edit(PlannerInput {
        envelope: env,
        pieces,
        buffers,
        author_id: AUTHOR,
    })
}

fn run_unwrap(
    pieces: PieceSnapshot,
    buffers: BufferSnapshot,
    env: &PieceTextEditEnvelopeV1,
) -> PlannerOutput {
    run(pieces, buffers, env).expect("planner should succeed")
}

fn empty_snapshot(pre_piece_next: i64) -> PieceSnapshot {
    PieceSnapshot {
        list_number: LIST_NUMBER,
        head_id: 0,
        tail_id: 0,
        pieces: vec![],
        pre_piece_next_id: pre_piece_next,
    }
}

fn empty_buffers(pre_buffers_next: i64) -> BufferSnapshot {
    BufferSnapshot {
        buffers: vec![],
        pre_buffers_next_id: pre_buffers_next,
    }
}

#[test]
fn empty_insert_into_empty_document() {
    let env = envelope(vec![PieceTextEditItemManifest::Insert {
        at: BufferCoord::document_start(),
        inserted: manifest(5, 0xAA),
    }]);
    let out = run_unwrap(empty_snapshot(1), empty_buffers(1), &env);

    assert_eq!(out.piece_inserts.len(), 1);
    assert_eq!(out.piece_inserts[0].new_id, 1);
    assert_eq!(out.piece_inserts[0].prev_id, 0);
    assert_eq!(out.piece_inserts[0].next_id, 0);
    assert_eq!(out.piece_inserts[0].coord.buffer_id, 1);
    assert_eq!(out.piece_inserts[0].coord.start_byte, 0);
    assert_eq!(out.piece_inserts[0].coord.len_bytes, 5);
    assert!(!out.piece_inserts[0].coord.tombstone);

    assert!(out.piece_updates.is_empty());

    assert_eq!(out.buffer_inserts.len(), 1);
    assert_eq!(out.buffer_inserts[0].new_id, 1);
    assert_eq!(out.buffer_inserts[0].len_bytes, 5);
    assert_eq!(out.buffer_inserts[0].author_id, AUTHOR);

    assert_eq!(out.head_update, Some(1));
    assert_eq!(out.tail_update, Some(1));
    assert_eq!(out.piece_next_id_post, Some(2));
    assert_eq!(out.buffers_next_id_post, Some(2));
}

fn one_piece_doc() -> (PieceSnapshot, BufferSnapshot) {
    let pieces = PieceSnapshot {
        list_number: LIST_NUMBER,
        head_id: 10,
        tail_id: 10,
        pieces: vec![PieceRow {
            id: 10,
            list_number: LIST_NUMBER,
            prev_id: 0,
            next_id: 0,
            coord: PieceCoord {
                buffer_id: 5,
                start_byte: 0,
                len_bytes: 5,
                tombstone: false,
            },
        }],
        pre_piece_next_id: 11,
    };
    let buffers = BufferSnapshot {
        buffers: vec![buffer_meta(5, 5)],
        pre_buffers_next_id: 6,
    };
    (pieces, buffers)
}

#[test]
fn append_after_existing_piece() {
    let (pieces, buffers) = one_piece_doc();
    let env = envelope(vec![PieceTextEditItemManifest::Insert {
        at: BufferCoord {
            buffer_id: 5,
            byte_pos: 5,
        },
        inserted: manifest(3, 0xBB),
    }]);
    let out = run_unwrap(pieces, buffers, &env);

    assert_eq!(out.piece_inserts.len(), 1);
    let n = &out.piece_inserts[0];
    assert_eq!(n.new_id, 11);
    assert_eq!(n.prev_id, 10);
    assert_eq!(n.next_id, 0);
    assert_eq!(n.coord.buffer_id, 6);
    assert_eq!(n.coord.len_bytes, 3);

    assert_eq!(out.piece_updates.len(), 1);
    assert_eq!(out.piece_updates[0].id, 10);
    assert_eq!(out.piece_updates[0].next_id, Some(11));
    assert!(out.piece_updates[0].prev_id.is_none());
    assert!(out.piece_updates[0].coord.is_none());

    assert_eq!(out.head_update, None);
    assert_eq!(out.tail_update, Some(11));
}

#[test]
fn split_insert_inside_a_piece() {
    let (pieces, buffers) = one_piece_doc();
    let env = envelope(vec![PieceTextEditItemManifest::Insert {
        at: BufferCoord {
            buffer_id: 5,
            byte_pos: 2,
        },
        inserted: manifest(4, 0xCC),
    }]);
    let out = run_unwrap(pieces, buffers, &env);

    assert_eq!(out.piece_inserts.len(), 2);
    let n = &out.piece_inserts[0];
    let r = &out.piece_inserts[1];
    assert_eq!(n.new_id, 11);
    assert_eq!(r.new_id, 12);
    assert!(n.new_id < r.new_id);

    assert_eq!(n.prev_id, 10);
    assert_eq!(n.next_id, 12);
    assert_eq!(n.coord.buffer_id, 6);
    assert_eq!(n.coord.start_byte, 0);
    assert_eq!(n.coord.len_bytes, 4);

    assert_eq!(r.prev_id, 11);
    assert_eq!(r.next_id, 0);
    assert_eq!(r.coord.buffer_id, 5);
    assert_eq!(r.coord.start_byte, 2);
    assert_eq!(r.coord.len_bytes, 3);
    assert!(!r.coord.tombstone);

    assert_eq!(out.piece_updates.len(), 1);
    let p_upd = &out.piece_updates[0];
    assert_eq!(p_upd.id, 10);
    assert_eq!(p_upd.next_id, Some(11));
    assert_eq!(
        p_upd.coord,
        Some(PieceCoord {
            buffer_id: 5,
            start_byte: 0,
            len_bytes: 2,
            tombstone: false,
        })
    );
    assert!(p_upd.prev_id.is_none());

    assert_eq!(out.head_update, None);
    assert_eq!(out.tail_update, Some(12));
    assert_eq!(out.piece_next_id_post, Some(13));
}

#[test]
fn same_coordinate_inserts_render_newest_first() {
    let env = envelope(vec![
        PieceTextEditItemManifest::Insert {
            at: BufferCoord::document_start(),
            inserted: manifest(1, 0x01),
        },
        PieceTextEditItemManifest::Insert {
            at: BufferCoord::document_start(),
            inserted: manifest(1, 0x02),
        },
        PieceTextEditItemManifest::Insert {
            at: BufferCoord::document_start(),
            inserted: manifest(1, 0x03),
        },
    ]);
    let out = run_unwrap(empty_snapshot(1), empty_buffers(1), &env);

    assert_eq!(out.piece_inserts.len(), 3);
    let t1 = &out.piece_inserts[0];
    let t2 = &out.piece_inserts[1];
    let t3 = &out.piece_inserts[2];
    assert_eq!(t1.new_id, 1);
    assert_eq!(t2.new_id, 2);
    assert_eq!(t3.new_id, 3);
    assert_eq!(t3.prev_id, 0);
    assert_eq!(t3.next_id, 2);
    assert_eq!(t2.prev_id, 3);
    assert_eq!(t2.next_id, 1);
    assert_eq!(t1.prev_id, 2);
    assert_eq!(t1.next_id, 0);
    assert_eq!(out.head_update, Some(3));
    assert_eq!(out.tail_update, Some(1));
}

#[test]
fn same_coordinate_after_existing_piece() {
    let (pieces, buffers) = one_piece_doc();
    let env = envelope(vec![
        PieceTextEditItemManifest::Insert {
            at: BufferCoord {
                buffer_id: 5,
                byte_pos: 5,
            },
            inserted: manifest(2, 0xAA),
        },
        PieceTextEditItemManifest::Insert {
            at: BufferCoord {
                buffer_id: 5,
                byte_pos: 5,
            },
            inserted: manifest(3, 0xBB),
        },
    ]);
    let out = run_unwrap(pieces, buffers, &env);

    assert_eq!(out.piece_inserts.len(), 2);
    let n1 = &out.piece_inserts[0];
    let n2 = &out.piece_inserts[1];
    assert_eq!(n1.new_id, 11);
    assert_eq!(n2.new_id, 12);
    assert_eq!(n2.prev_id, 10);
    assert_eq!(n2.next_id, 11);
    assert_eq!(n1.prev_id, 12);
    assert_eq!(n1.next_id, 0);
    assert_eq!(out.tail_update, Some(11));
    assert_eq!(out.head_update, None);

    assert_eq!(out.piece_updates.len(), 1);
    assert_eq!(out.piece_updates[0].id, 10);
    assert_eq!(out.piece_updates[0].next_id, Some(12));
    assert!(out.piece_updates[0].prev_id.is_none());
    assert!(out.piece_updates[0].coord.is_none());
}

fn three_piece_doc_middle_tomb() -> (PieceSnapshot, BufferSnapshot) {
    let pieces = PieceSnapshot {
        list_number: LIST_NUMBER,
        head_id: 1,
        tail_id: 3,
        pieces: vec![
            PieceRow {
                id: 1,
                list_number: LIST_NUMBER,
                prev_id: 0,
                next_id: 2,
                coord: PieceCoord {
                    buffer_id: 5,
                    start_byte: 0,
                    len_bytes: 2,
                    tombstone: false,
                },
            },
            PieceRow {
                id: 2,
                list_number: LIST_NUMBER,
                prev_id: 1,
                next_id: 3,
                coord: PieceCoord {
                    buffer_id: 5,
                    start_byte: 2,
                    len_bytes: 1,
                    tombstone: true,
                },
            },
            PieceRow {
                id: 3,
                list_number: LIST_NUMBER,
                prev_id: 2,
                next_id: 0,
                coord: PieceCoord {
                    buffer_id: 5,
                    start_byte: 3,
                    len_bytes: 2,
                    tombstone: false,
                },
            },
        ],
        pre_piece_next_id: 4,
    };
    let buffers = BufferSnapshot {
        buffers: vec![buffer_meta(5, 5)],
        pre_buffers_next_id: 6,
    };
    (pieces, buffers)
}

#[test]
fn insert_inside_tombstone_back_clamps_to_live_predecessor() {
    let (pieces, buffers) = three_piece_doc_middle_tomb();
    let env_predecessor = envelope(vec![PieceTextEditItemManifest::Insert {
        at: BufferCoord {
            buffer_id: 5,
            byte_pos: 2,
        },
        inserted: manifest(2, 0x11),
    }]);
    let out = run_unwrap(pieces.clone(), buffers.clone(), &env_predecessor);
    assert!(out.trace.clamp_walks.is_empty());
    assert_eq!(out.piece_inserts.len(), 1);
    let n = &out.piece_inserts[0];
    assert_eq!(n.prev_id, 1);
    assert_eq!(n.next_id, 2);

    let env_inside = envelope(vec![PieceTextEditItemManifest::Insert {
        at: BufferCoord {
            buffer_id: 5,
            byte_pos: 2,
        },
        inserted: manifest(1, 0x22),
    }]);
    let _ = env_inside;
    drop(out);

    let env_clamp = envelope(vec![PieceTextEditItemManifest::Insert {
        at: BufferCoord {
            buffer_id: 5,
            byte_pos: 3,
        },
        inserted: manifest(2, 0x33),
    }]);
    let out = run_unwrap(pieces, buffers, &env_clamp);
    assert_eq!(out.trace.clamp_walks.len(), 1);
    let walk = &out.trace.clamp_walks[0];
    assert_eq!(walk.start_row_id, 2);
    assert_eq!(walk.direction, ClampDirection::Backward);
    assert_eq!(walk.purpose, ResolvePurpose::InsertAnchor);
    assert_eq!(walk.hops, 1);
    assert_eq!(walk.end_row_id, Some(1));

    let n = &out.piece_inserts[0];
    assert_eq!(n.prev_id, 1);
    assert_eq!(n.next_id, 2);
}

#[test]
fn tombstone_clamp_walks_full_run_backward_for_insert_anchor() {
    let pieces = PieceSnapshot {
        list_number: LIST_NUMBER,
        head_id: 1,
        tail_id: 5,
        pieces: vec![
            PieceRow {
                id: 1,
                list_number: LIST_NUMBER,
                prev_id: 0,
                next_id: 2,
                coord: PieceCoord {
                    buffer_id: 5,
                    start_byte: 0,
                    len_bytes: 1,
                    tombstone: false,
                },
            },
            PieceRow {
                id: 2,
                list_number: LIST_NUMBER,
                prev_id: 1,
                next_id: 3,
                coord: PieceCoord {
                    buffer_id: 5,
                    start_byte: 1,
                    len_bytes: 1,
                    tombstone: true,
                },
            },
            PieceRow {
                id: 3,
                list_number: LIST_NUMBER,
                prev_id: 2,
                next_id: 4,
                coord: PieceCoord {
                    buffer_id: 5,
                    start_byte: 2,
                    len_bytes: 1,
                    tombstone: true,
                },
            },
            PieceRow {
                id: 4,
                list_number: LIST_NUMBER,
                prev_id: 3,
                next_id: 5,
                coord: PieceCoord {
                    buffer_id: 5,
                    start_byte: 3,
                    len_bytes: 1,
                    tombstone: true,
                },
            },
            PieceRow {
                id: 5,
                list_number: LIST_NUMBER,
                prev_id: 4,
                next_id: 0,
                coord: PieceCoord {
                    buffer_id: 5,
                    start_byte: 4,
                    len_bytes: 1,
                    tombstone: false,
                },
            },
        ],
        pre_piece_next_id: 6,
    };
    let buffers = BufferSnapshot {
        buffers: vec![buffer_meta(5, 5)],
        pre_buffers_next_id: 6,
    };

    let env = envelope(vec![PieceTextEditItemManifest::Insert {
        at: BufferCoord {
            buffer_id: 5,
            byte_pos: 3,
        },
        inserted: manifest(2, 0x44),
    }]);
    let out = run_unwrap(pieces, buffers, &env);

    let backward_walks: Vec<&ClampWalk> = out
        .trace
        .clamp_walks
        .iter()
        .filter(|w| w.direction == ClampDirection::Backward)
        .collect();
    assert_eq!(backward_walks.len(), 1);
    let bw = backward_walks[0];
    assert_eq!(bw.purpose, ResolvePurpose::InsertAnchor);
    assert_eq!(bw.start_row_id, 3);
    assert_eq!(bw.hops, 2);
    assert_eq!(bw.end_row_id, Some(1));

    let n = &out.piece_inserts[0];
    assert_eq!(n.prev_id, 1);
    assert_eq!(n.next_id, 2);
}

#[test]
fn tombstone_clamp_walks_full_run_forward_for_delete_start() {
    let pieces = PieceSnapshot {
        list_number: LIST_NUMBER,
        head_id: 1,
        tail_id: 5,
        pieces: vec![
            PieceRow {
                id: 1,
                list_number: LIST_NUMBER,
                prev_id: 0,
                next_id: 2,
                coord: PieceCoord {
                    buffer_id: 5,
                    start_byte: 0,
                    len_bytes: 1,
                    tombstone: false,
                },
            },
            PieceRow {
                id: 2,
                list_number: LIST_NUMBER,
                prev_id: 1,
                next_id: 3,
                coord: PieceCoord {
                    buffer_id: 5,
                    start_byte: 1,
                    len_bytes: 1,
                    tombstone: true,
                },
            },
            PieceRow {
                id: 3,
                list_number: LIST_NUMBER,
                prev_id: 2,
                next_id: 4,
                coord: PieceCoord {
                    buffer_id: 5,
                    start_byte: 2,
                    len_bytes: 1,
                    tombstone: true,
                },
            },
            PieceRow {
                id: 4,
                list_number: LIST_NUMBER,
                prev_id: 3,
                next_id: 5,
                coord: PieceCoord {
                    buffer_id: 5,
                    start_byte: 3,
                    len_bytes: 1,
                    tombstone: true,
                },
            },
            PieceRow {
                id: 5,
                list_number: LIST_NUMBER,
                prev_id: 4,
                next_id: 0,
                coord: PieceCoord {
                    buffer_id: 5,
                    start_byte: 4,
                    len_bytes: 1,
                    tombstone: false,
                },
            },
        ],
        pre_piece_next_id: 6,
    };
    let buffers = BufferSnapshot {
        buffers: vec![buffer_meta(5, 5)],
        pre_buffers_next_id: 6,
    };

    let env = envelope(vec![PieceTextEditItemManifest::Delete {
        start: BufferCoord {
            buffer_id: 5,
            byte_pos: 2,
        },
        end: BufferCoord {
            buffer_id: 5,
            byte_pos: 5,
        },
    }]);
    let out = run_unwrap(pieces, buffers, &env);

    let forward_walks: Vec<&ClampWalk> = out
        .trace
        .clamp_walks
        .iter()
        .filter(|w| w.direction == ClampDirection::Forward)
        .collect();
    assert_eq!(forward_walks.len(), 1);
    let fw = forward_walks[0];
    assert_eq!(fw.purpose, ResolvePurpose::DeleteStart);
    assert_eq!(fw.start_row_id, 2);
    assert_eq!(fw.hops, 3);
    assert_eq!(fw.end_row_id, Some(5));

    let updates_for_e: Vec<&PieceRowUpdate> =
        out.piece_updates.iter().filter(|u| u.id == 5).collect();
    assert_eq!(updates_for_e.len(), 1);
    assert_eq!(
        updates_for_e[0].coord,
        Some(PieceCoord {
            buffer_id: 5,
            start_byte: 4,
            len_bytes: 1,
            tombstone: true,
        })
    );
}

fn three_piece_doc_live() -> (PieceSnapshot, BufferSnapshot) {
    let pieces = PieceSnapshot {
        list_number: LIST_NUMBER,
        head_id: 1,
        tail_id: 3,
        pieces: vec![
            PieceRow {
                id: 1,
                list_number: LIST_NUMBER,
                prev_id: 0,
                next_id: 2,
                coord: PieceCoord {
                    buffer_id: 1,
                    start_byte: 0,
                    len_bytes: 3,
                    tombstone: false,
                },
            },
            PieceRow {
                id: 2,
                list_number: LIST_NUMBER,
                prev_id: 1,
                next_id: 3,
                coord: PieceCoord {
                    buffer_id: 2,
                    start_byte: 0,
                    len_bytes: 4,
                    tombstone: false,
                },
            },
            PieceRow {
                id: 3,
                list_number: LIST_NUMBER,
                prev_id: 2,
                next_id: 0,
                coord: PieceCoord {
                    buffer_id: 3,
                    start_byte: 0,
                    len_bytes: 2,
                    tombstone: false,
                },
            },
        ],
        pre_piece_next_id: 4,
    };
    let buffers = BufferSnapshot {
        buffers: vec![buffer_meta(1, 3), buffer_meta(2, 4), buffer_meta(3, 2)],
        pre_buffers_next_id: 4,
    };
    (pieces, buffers)
}

#[test]
fn whole_piece_delete_only_flips_tombstone() {
    let (pieces, buffers) = three_piece_doc_live();
    let env = envelope(vec![PieceTextEditItemManifest::Delete {
        start: BufferCoord {
            buffer_id: 2,
            byte_pos: 0,
        },
        end: BufferCoord {
            buffer_id: 2,
            byte_pos: 4,
        },
    }]);
    let out = run_unwrap(pieces, buffers, &env);

    assert!(out.piece_inserts.is_empty());
    assert!(out.buffer_inserts.is_empty());
    assert_eq!(out.piece_updates.len(), 1);
    let upd = &out.piece_updates[0];
    assert_eq!(upd.id, 2);
    assert!(upd.prev_id.is_none());
    assert!(upd.next_id.is_none());
    assert_eq!(
        upd.coord,
        Some(PieceCoord {
            buffer_id: 2,
            start_byte: 0,
            len_bytes: 4,
            tombstone: true,
        })
    );
    assert_eq!(out.piece_next_id_post, None);
    assert_eq!(out.buffers_next_id_post, None);
    assert_eq!(out.head_update, None);
    assert_eq!(out.tail_update, None);
}

#[test]
fn ragged_center_delete_within_one_piece() {
    let pieces = PieceSnapshot {
        list_number: LIST_NUMBER,
        head_id: 10,
        tail_id: 10,
        pieces: vec![PieceRow {
            id: 10,
            list_number: LIST_NUMBER,
            prev_id: 0,
            next_id: 0,
            coord: PieceCoord {
                buffer_id: 5,
                start_byte: 0,
                len_bytes: 10,
                tombstone: false,
            },
        }],
        pre_piece_next_id: 11,
    };
    let buffers = BufferSnapshot {
        buffers: vec![buffer_meta(5, 10)],
        pre_buffers_next_id: 6,
    };
    let env = envelope(vec![PieceTextEditItemManifest::Delete {
        start: BufferCoord {
            buffer_id: 5,
            byte_pos: 3,
        },
        end: BufferCoord {
            buffer_id: 5,
            byte_pos: 7,
        },
    }]);
    let out = run_unwrap(pieces, buffers, &env);

    assert_eq!(out.piece_inserts.len(), 2);
    let m = &out.piece_inserts[0];
    let r = &out.piece_inserts[1];
    assert_eq!(m.new_id, 11);
    assert_eq!(r.new_id, 12);
    assert!(m.coord.tombstone);
    assert_eq!(m.coord.start_byte, 3);
    assert_eq!(m.coord.len_bytes, 4);
    assert!(!r.coord.tombstone);
    assert_eq!(r.coord.start_byte, 7);
    assert_eq!(r.coord.len_bytes, 3);

    assert_eq!(m.prev_id, 10);
    assert_eq!(m.next_id, 12);
    assert_eq!(r.prev_id, 11);
    assert_eq!(r.next_id, 0);

    assert_eq!(out.piece_updates.len(), 1);
    let p_upd = &out.piece_updates[0];
    assert_eq!(p_upd.id, 10);
    assert_eq!(p_upd.next_id, Some(11));
    assert_eq!(
        p_upd.coord,
        Some(PieceCoord {
            buffer_id: 5,
            start_byte: 0,
            len_bytes: 3,
            tombstone: false,
        })
    );

    assert_eq!(out.tail_update, Some(12));
    assert_eq!(out.head_update, None);
    assert_eq!(out.piece_next_id_post, Some(13));
}

#[test]
fn ragged_left_delete_within_one_piece() {
    let pieces = PieceSnapshot {
        list_number: LIST_NUMBER,
        head_id: 10,
        tail_id: 10,
        pieces: vec![PieceRow {
            id: 10,
            list_number: LIST_NUMBER,
            prev_id: 0,
            next_id: 0,
            coord: PieceCoord {
                buffer_id: 5,
                start_byte: 0,
                len_bytes: 10,
                tombstone: false,
            },
        }],
        pre_piece_next_id: 11,
    };
    let buffers = BufferSnapshot {
        buffers: vec![buffer_meta(5, 10)],
        pre_buffers_next_id: 6,
    };
    let env = envelope(vec![PieceTextEditItemManifest::Delete {
        start: BufferCoord {
            buffer_id: 5,
            byte_pos: 3,
        },
        end: BufferCoord {
            buffer_id: 5,
            byte_pos: 10,
        },
    }]);
    let out = run_unwrap(pieces, buffers, &env);

    assert_eq!(out.piece_inserts.len(), 1);
    let m = &out.piece_inserts[0];
    assert_eq!(m.new_id, 11);
    assert!(m.coord.tombstone);
    assert_eq!(m.coord.start_byte, 3);
    assert_eq!(m.coord.len_bytes, 7);
    assert_eq!(m.prev_id, 10);
    assert_eq!(m.next_id, 0);

    assert_eq!(out.piece_updates.len(), 1);
    let p_upd = &out.piece_updates[0];
    assert_eq!(p_upd.id, 10);
    assert_eq!(p_upd.next_id, Some(11));
    assert_eq!(
        p_upd.coord,
        Some(PieceCoord {
            buffer_id: 5,
            start_byte: 0,
            len_bytes: 3,
            tombstone: false,
        })
    );

    assert_eq!(out.tail_update, Some(11));
    assert_eq!(out.head_update, None);
}

#[test]
fn ragged_right_delete_within_one_piece() {
    let pieces = PieceSnapshot {
        list_number: LIST_NUMBER,
        head_id: 10,
        tail_id: 10,
        pieces: vec![PieceRow {
            id: 10,
            list_number: LIST_NUMBER,
            prev_id: 0,
            next_id: 0,
            coord: PieceCoord {
                buffer_id: 5,
                start_byte: 0,
                len_bytes: 10,
                tombstone: false,
            },
        }],
        pre_piece_next_id: 11,
    };
    let buffers = BufferSnapshot {
        buffers: vec![buffer_meta(5, 10)],
        pre_buffers_next_id: 6,
    };
    let env = envelope(vec![PieceTextEditItemManifest::Delete {
        start: BufferCoord {
            buffer_id: 5,
            byte_pos: 0,
        },
        end: BufferCoord {
            buffer_id: 5,
            byte_pos: 7,
        },
    }]);
    let out = run_unwrap(pieces, buffers, &env);

    assert_eq!(out.piece_inserts.len(), 1);
    let m = &out.piece_inserts[0];
    assert!(!m.coord.tombstone);
    assert_eq!(m.coord.start_byte, 7);
    assert_eq!(m.coord.len_bytes, 3);
    assert_eq!(m.prev_id, 10);
    assert_eq!(m.next_id, 0);

    assert_eq!(out.piece_updates.len(), 1);
    let p_upd = &out.piece_updates[0];
    assert_eq!(p_upd.id, 10);
    assert_eq!(p_upd.next_id, Some(11));
    assert_eq!(
        p_upd.coord,
        Some(PieceCoord {
            buffer_id: 5,
            start_byte: 0,
            len_bytes: 7,
            tombstone: true,
        })
    );

    assert_eq!(out.tail_update, Some(11));
    assert_eq!(out.head_update, None);
}

#[test]
fn both_ragged_delete_left_then_right_ordering() {
    let pieces = PieceSnapshot {
        list_number: LIST_NUMBER,
        head_id: 1,
        tail_id: 3,
        pieces: vec![
            PieceRow {
                id: 1,
                list_number: LIST_NUMBER,
                prev_id: 0,
                next_id: 2,
                coord: PieceCoord {
                    buffer_id: 1,
                    start_byte: 0,
                    len_bytes: 4,
                    tombstone: false,
                },
            },
            PieceRow {
                id: 2,
                list_number: LIST_NUMBER,
                prev_id: 1,
                next_id: 3,
                coord: PieceCoord {
                    buffer_id: 2,
                    start_byte: 0,
                    len_bytes: 3,
                    tombstone: false,
                },
            },
            PieceRow {
                id: 3,
                list_number: LIST_NUMBER,
                prev_id: 2,
                next_id: 0,
                coord: PieceCoord {
                    buffer_id: 3,
                    start_byte: 0,
                    len_bytes: 5,
                    tombstone: false,
                },
            },
        ],
        pre_piece_next_id: 4,
    };
    let buffers = BufferSnapshot {
        buffers: vec![buffer_meta(1, 4), buffer_meta(2, 3), buffer_meta(3, 5)],
        pre_buffers_next_id: 4,
    };
    let env = envelope(vec![PieceTextEditItemManifest::Delete {
        start: BufferCoord {
            buffer_id: 1,
            byte_pos: 2,
        },
        end: BufferCoord {
            buffer_id: 3,
            byte_pos: 3,
        },
    }]);
    let out = run_unwrap(pieces, buffers, &env);

    assert_eq!(out.piece_inserts.len(), 2);
    let ml = &out.piece_inserts[0];
    let mr = &out.piece_inserts[1];
    assert_eq!(ml.new_id, 4);
    assert_eq!(mr.new_id, 5);
    assert!(ml.new_id < mr.new_id);

    assert!(ml.coord.tombstone);
    assert_eq!(ml.coord.buffer_id, 1);
    assert_eq!(ml.coord.start_byte, 2);
    assert_eq!(ml.coord.len_bytes, 2);
    assert_eq!(ml.prev_id, 1);
    assert_eq!(ml.next_id, 2);

    assert!(!mr.coord.tombstone);
    assert_eq!(mr.coord.buffer_id, 3);
    assert_eq!(mr.coord.start_byte, 3);
    assert_eq!(mr.coord.len_bytes, 2);
    assert_eq!(mr.prev_id, 3);
    assert_eq!(mr.next_id, 0);

    let updates: HashMap<i64, &PieceRowUpdate> =
        out.piece_updates.iter().map(|u| (u.id, u)).collect();
    assert_eq!(updates.len(), 3);

    let a_upd = updates[&1];
    assert_eq!(a_upd.next_id, Some(4));
    assert_eq!(
        a_upd.coord,
        Some(PieceCoord {
            buffer_id: 1,
            start_byte: 0,
            len_bytes: 2,
            tombstone: false,
        })
    );
    assert!(a_upd.prev_id.is_none());

    let b_upd = updates[&2];
    assert_eq!(b_upd.prev_id, Some(4));
    assert_eq!(
        b_upd.coord,
        Some(PieceCoord {
            buffer_id: 2,
            start_byte: 0,
            len_bytes: 3,
            tombstone: true,
        })
    );
    assert!(b_upd.next_id.is_none());

    let c_upd = updates[&3];
    assert_eq!(c_upd.next_id, Some(5));
    assert_eq!(
        c_upd.coord,
        Some(PieceCoord {
            buffer_id: 3,
            start_byte: 0,
            len_bytes: 3,
            tombstone: true,
        })
    );
    assert!(c_upd.prev_id.is_none());

    assert_eq!(out.tail_update, Some(5));
    assert_eq!(out.head_update, None);
    assert_eq!(out.piece_next_id_post, Some(6));
}

#[test]
fn delete_then_insert_at_deleted_boundary() {
    let pieces = PieceSnapshot {
        list_number: LIST_NUMBER,
        head_id: 10,
        tail_id: 10,
        pieces: vec![PieceRow {
            id: 10,
            list_number: LIST_NUMBER,
            prev_id: 0,
            next_id: 0,
            coord: PieceCoord {
                buffer_id: 5,
                start_byte: 0,
                len_bytes: 10,
                tombstone: false,
            },
        }],
        pre_piece_next_id: 11,
    };
    let buffers = BufferSnapshot {
        buffers: vec![buffer_meta(5, 10)],
        pre_buffers_next_id: 6,
    };
    let env = envelope(vec![
        PieceTextEditItemManifest::Delete {
            start: BufferCoord {
                buffer_id: 5,
                byte_pos: 3,
            },
            end: BufferCoord {
                buffer_id: 5,
                byte_pos: 7,
            },
        },
        PieceTextEditItemManifest::Insert {
            at: BufferCoord {
                buffer_id: 5,
                byte_pos: 3,
            },
            inserted: manifest(2, 0xFE),
        },
    ]);
    let out = run_unwrap(pieces, buffers, &env);

    assert_eq!(out.piece_inserts.len(), 3);
    assert_eq!(out.piece_inserts[0].new_id, 11);
    assert_eq!(out.piece_inserts[1].new_id, 12);
    assert_eq!(out.piece_inserts[2].new_id, 13);

    let n = &out.piece_inserts[2];
    assert_eq!(n.prev_id, 10);
    assert_eq!(n.next_id, 11);

    assert_eq!(n.coord.buffer_id, 6);
    assert_eq!(n.coord.len_bytes, 2);

    assert_eq!(out.piece_inserts[0].prev_id, 13);
    assert_eq!(out.piece_inserts[0].next_id, 12);
    assert_eq!(out.piece_inserts[1].prev_id, 11);
    assert_eq!(out.piece_inserts[1].next_id, 0);

    let p_upd = out
        .piece_updates
        .iter()
        .find(|u| u.id == 10)
        .expect("update for P");
    assert_eq!(p_upd.next_id, Some(13));
    assert_eq!(
        p_upd.coord,
        Some(PieceCoord {
            buffer_id: 5,
            start_byte: 0,
            len_bytes: 3,
            tombstone: false,
        })
    );

    assert_eq!(out.tail_update, Some(12));
    assert_eq!(out.head_update, None);
}

#[test]
fn overlapping_sequential_deletes_are_idempotent_in_overlap() {
    let (pieces, buffers) = three_piece_doc_live();
    let env = envelope(vec![
        PieceTextEditItemManifest::Delete {
            start: BufferCoord {
                buffer_id: 1,
                byte_pos: 0,
            },
            end: BufferCoord {
                buffer_id: 1,
                byte_pos: 3,
            },
        },
        PieceTextEditItemManifest::Delete {
            start: BufferCoord {
                buffer_id: 1,
                byte_pos: 2,
            },
            end: BufferCoord {
                buffer_id: 3,
                byte_pos: 1,
            },
        },
    ]);
    let out = run_unwrap(pieces, buffers, &env);

    let forward_clamp_walks: Vec<&ClampWalk> = out
        .trace
        .clamp_walks
        .iter()
        .filter(|w| w.direction == ClampDirection::Forward)
        .collect();
    assert!(!forward_clamp_walks.is_empty());
    let fw = forward_clamp_walks[0];
    assert_eq!(fw.purpose, ResolvePurpose::DeleteStart);
    assert_eq!(fw.hops, 1);
    assert_eq!(fw.end_row_id, Some(2));

    let a_upd = out
        .piece_updates
        .iter()
        .find(|u| u.id == 1)
        .expect("update for A");
    assert_eq!(
        a_upd.coord.unwrap(),
        PieceCoord {
            buffer_id: 1,
            start_byte: 0,
            len_bytes: 3,
            tombstone: true,
        }
    );

    let b_upd = out
        .piece_updates
        .iter()
        .find(|u| u.id == 2)
        .expect("update for B");
    assert!(b_upd.coord.unwrap().tombstone);

    assert_eq!(out.piece_inserts.len(), 1);
    let mr = &out.piece_inserts[0];
    assert!(!mr.coord.tombstone);
    assert_eq!(mr.coord.buffer_id, 3);
    assert_eq!(mr.coord.start_byte, 1);
    assert_eq!(mr.coord.len_bytes, 1);
}

#[test]
fn rejects_coord_targeting_buffer_allocated_in_same_edit() {
    let env = envelope(vec![
        PieceTextEditItemManifest::Insert {
            at: BufferCoord::document_start(),
            inserted: manifest(4, 0xAA),
        },
        PieceTextEditItemManifest::Insert {
            at: BufferCoord {
                buffer_id: 1,
                byte_pos: 2,
            },
            inserted: manifest(2, 0xBB),
        },
    ]);
    let err = run(empty_snapshot(1), empty_buffers(1), &env).expect_err("must reject");
    match err {
        PlannerError::InvalidCoordinate(_) => {
            let msg = err.message();
            assert!(
                msg.contains("allocated by an earlier Insert"),
                "unexpected message: {msg}"
            );
        }
        other => panic!("expected InvalidCoordinate, got {other:?}"),
    }
}

#[test]
fn rejects_unknown_buffer_id() {
    let env = envelope(vec![PieceTextEditItemManifest::Insert {
        at: BufferCoord {
            buffer_id: 99,
            byte_pos: 0,
        },
        inserted: manifest(2, 0xCD),
    }]);
    let err = run(empty_snapshot(1), empty_buffers(1), &env).expect_err("must reject");
    match err {
        PlannerError::BufferNotFound { buffer_id } => assert_eq!(buffer_id, 99),
        other => panic!("expected BufferNotFound, got {other:?}"),
    }
}

#[test]
fn rejects_unknown_byte_coordinate() {
    let (pieces, buffers) = one_piece_doc();
    let env = envelope(vec![PieceTextEditItemManifest::Insert {
        at: BufferCoord {
            buffer_id: 5,
            byte_pos: 99,
        },
        inserted: manifest(1, 0xEE),
    }]);
    let err = run(pieces, buffers, &env).expect_err("must reject");
    match err {
        PlannerError::UnknownCoordinate { .. } => {}
        other => panic!("expected UnknownCoordinate, got {other:?}"),
    }
}

#[test]
fn rejects_overlapping_same_buffer_rows_on_write_path() {
    let pieces = PieceSnapshot {
        list_number: LIST_NUMBER,
        head_id: 1,
        tail_id: 2,
        pre_piece_next_id: 3,
        pieces: vec![
            PieceRow {
                id: 1,
                list_number: LIST_NUMBER,
                prev_id: 0,
                next_id: 2,
                coord: PieceCoord {
                    buffer_id: 5,
                    start_byte: 0,
                    len_bytes: 20,
                    tombstone: false,
                },
            },
            PieceRow {
                id: 2,
                list_number: LIST_NUMBER,
                prev_id: 1,
                next_id: 0,
                coord: PieceCoord {
                    buffer_id: 5,
                    start_byte: 8,
                    len_bytes: 20,
                    tombstone: false,
                },
            },
        ],
    };
    let buffers = BufferSnapshot {
        buffers: vec![buffer_meta(5, 40)],
        pre_buffers_next_id: 6,
    };
    let env = envelope(vec![PieceTextEditItemManifest::Insert {
        at: BufferCoord {
            buffer_id: 5,
            byte_pos: 12,
        },
        inserted: manifest(4, 0xEE),
    }]);

    let err = run(pieces, buffers, &env).expect_err("must reject overlap");
    match err {
        PlannerError::SnapshotInvariant(_) => {
            let msg = err.message();
            assert!(
                msg.contains("coord contradiction"),
                "unexpected message: {msg}"
            );
        }
        other => panic!("expected SnapshotInvariant, got {other:?}"),
    }
}

#[test]
fn rejects_delete_from_interior_to_document_start() {
    let (pieces, buffers) = three_piece_doc_live();
    let env = envelope(vec![PieceTextEditItemManifest::Delete {
        start: BufferCoord {
            buffer_id: 2,
            byte_pos: 2,
        },
        end: BufferCoord::document_start(),
    }]);
    let err = run(pieces, buffers, &env).expect_err("must reject");
    match err {
        PlannerError::InvalidEdit(_) => {
            let msg = err.message();
            assert!(
                msg.contains("delete start resolved past delete end"),
                "unexpected message: {msg}"
            );
        }
        other => panic!("expected InvalidEdit, got {other:?}"),
    }
}

#[test]
fn rejects_delete_with_start_clamped_past_tail_and_earlier_end() {
    let pieces = PieceSnapshot {
        list_number: LIST_NUMBER,
        head_id: 1,
        tail_id: 3,
        pieces: vec![
            PieceRow {
                id: 1,
                list_number: LIST_NUMBER,
                prev_id: 0,
                next_id: 2,
                coord: PieceCoord {
                    buffer_id: 1,
                    start_byte: 0,
                    len_bytes: 2,
                    tombstone: false,
                },
            },
            PieceRow {
                id: 2,
                list_number: LIST_NUMBER,
                prev_id: 1,
                next_id: 3,
                coord: PieceCoord {
                    buffer_id: 2,
                    start_byte: 0,
                    len_bytes: 2,
                    tombstone: false,
                },
            },
            PieceRow {
                id: 3,
                list_number: LIST_NUMBER,
                prev_id: 2,
                next_id: 0,
                coord: PieceCoord {
                    buffer_id: 3,
                    start_byte: 0,
                    len_bytes: 3,
                    tombstone: true,
                },
            },
        ],
        pre_piece_next_id: 4,
    };
    let buffers = BufferSnapshot {
        buffers: vec![buffer_meta(1, 2), buffer_meta(2, 2), buffer_meta(3, 3)],
        pre_buffers_next_id: 4,
    };
    let env = envelope(vec![PieceTextEditItemManifest::Delete {
        start: BufferCoord {
            buffer_id: 3,
            byte_pos: 1,
        },
        end: BufferCoord {
            buffer_id: 1,
            byte_pos: 1,
        },
    }]);
    let err = run(pieces, buffers, &env).expect_err("must reject");
    match err {
        PlannerError::InvalidEdit(_) => {
            let msg = err.message();
            assert!(
                msg.contains("delete start resolved past delete end"),
                "unexpected message: {msg}"
            );
        }
        other => panic!("expected InvalidEdit, got {other:?}"),
    }
}

#[test]
fn zero_width_delete_at_inter_row_boundary_is_noop() {
    let (pieces, buffers) = three_piece_doc_live();
    let env = envelope(vec![PieceTextEditItemManifest::Delete {
        start: BufferCoord {
            buffer_id: 2,
            byte_pos: 4,
        },
        end: BufferCoord {
            buffer_id: 3,
            byte_pos: 0,
        },
    }]);
    let out = run_unwrap(pieces, buffers, &env);
    assert!(out.piece_inserts.is_empty(), "no new pieces");
    assert!(out.piece_updates.is_empty(), "no row updates");
    assert!(out.buffer_inserts.is_empty(), "no buffer inserts");
    assert_eq!(out.head_update, None);
    assert_eq!(out.tail_update, None);
    assert_eq!(out.piece_next_id_post, None);
    assert_eq!(out.buffers_next_id_post, None);
}

#[test]
fn zero_width_delete_at_inter_row_boundary_with_tombstone_run_is_noop() {
    let pieces = PieceSnapshot {
        list_number: LIST_NUMBER,
        head_id: 1,
        tail_id: 3,
        pieces: vec![
            PieceRow {
                id: 1,
                list_number: LIST_NUMBER,
                prev_id: 0,
                next_id: 2,
                coord: PieceCoord {
                    buffer_id: 1,
                    start_byte: 0,
                    len_bytes: 2,
                    tombstone: false,
                },
            },
            PieceRow {
                id: 2,
                list_number: LIST_NUMBER,
                prev_id: 1,
                next_id: 3,
                coord: PieceCoord {
                    buffer_id: 9,
                    start_byte: 0,
                    len_bytes: 3,
                    tombstone: true,
                },
            },
            PieceRow {
                id: 3,
                list_number: LIST_NUMBER,
                prev_id: 2,
                next_id: 0,
                coord: PieceCoord {
                    buffer_id: 2,
                    start_byte: 0,
                    len_bytes: 2,
                    tombstone: false,
                },
            },
        ],
        pre_piece_next_id: 4,
    };
    let buffers = BufferSnapshot {
        buffers: vec![buffer_meta(1, 2), buffer_meta(9, 3), buffer_meta(2, 2)],
        pre_buffers_next_id: 10,
    };
    let env = envelope(vec![PieceTextEditItemManifest::Delete {
        start: BufferCoord {
            buffer_id: 1,
            byte_pos: 2,
        },
        end: BufferCoord {
            buffer_id: 2,
            byte_pos: 0,
        },
    }]);
    let out = run_unwrap(pieces, buffers, &env);
    assert!(out.piece_inserts.is_empty());
    assert!(out.piece_updates.is_empty());
    assert!(out.buffer_inserts.is_empty());
    assert_eq!(out.head_update, None);
    assert_eq!(out.tail_update, None);
}

#[test]
fn delete_inside_all_tombstoned_chain_is_noop() {
    let pieces = PieceSnapshot {
        list_number: LIST_NUMBER,
        head_id: 1,
        tail_id: 2,
        pieces: vec![
            PieceRow {
                id: 1,
                list_number: LIST_NUMBER,
                prev_id: 0,
                next_id: 2,
                coord: PieceCoord {
                    buffer_id: 1,
                    start_byte: 0,
                    len_bytes: 3,
                    tombstone: true,
                },
            },
            PieceRow {
                id: 2,
                list_number: LIST_NUMBER,
                prev_id: 1,
                next_id: 0,
                coord: PieceCoord {
                    buffer_id: 2,
                    start_byte: 0,
                    len_bytes: 4,
                    tombstone: true,
                },
            },
        ],
        pre_piece_next_id: 3,
    };
    let buffers = BufferSnapshot {
        buffers: vec![buffer_meta(1, 3), buffer_meta(2, 4)],
        pre_buffers_next_id: 3,
    };
    let env = envelope(vec![PieceTextEditItemManifest::Delete {
        start: BufferCoord {
            buffer_id: 1,
            byte_pos: 1,
        },
        end: BufferCoord {
            buffer_id: 2,
            byte_pos: 2,
        },
    }]);
    let out = run_unwrap(pieces.clone(), buffers.clone(), &env);
    assert!(out.piece_inserts.is_empty(), "no new pieces");
    assert!(out.piece_updates.is_empty(), "no row updates");
    assert!(out.buffer_inserts.is_empty(), "no buffer inserts");
    assert_eq!(out.head_update, None);
    assert_eq!(out.tail_update, None);
    assert_eq!(out.piece_next_id_post, None);
    assert_eq!(out.buffers_next_id_post, None);

    let env_swap = envelope(vec![PieceTextEditItemManifest::Delete {
        start: BufferCoord {
            buffer_id: 2,
            byte_pos: 1,
        },
        end: BufferCoord {
            buffer_id: 1,
            byte_pos: 2,
        },
    }]);
    let out_swap = run_unwrap(pieces, buffers, &env_swap);
    assert!(out_swap.piece_inserts.is_empty());
    assert!(out_swap.piece_updates.is_empty());
}

#[test]
fn random_insert_property_matches_string_oracle() {
    let seed = 0x1F00D_u64;
    let mut rng = LcgRng::new(seed);

    let mut oracle: Vec<char> = Vec::new();
    let mut buffer_contents: HashMap<i64, Vec<u8>> = HashMap::new();
    let mut snapshot = empty_snapshot(1);
    let mut buffers = empty_buffers(1);

    let palette: &[char] = &['a', 'b', 'c', '\u{00E9}', '\u{4E2D}', '\u{1F600}'];

    for round in 0..40 {
        let oracle_chars = oracle.len();
        let scalar_pos = if oracle_chars == 0 {
            0
        } else {
            (rng.next() as usize) % (oracle_chars + 1)
        };
        let payload_chars = 1 + (rng.next() as usize) % 3;
        let payload: Vec<char> = (0..payload_chars)
            .map(|_| palette[(rng.next() as usize) % palette.len()])
            .collect();
        let payload_utf32 = utf32le(&payload);
        let len_bytes = payload_utf32.len() as u32;
        assert!(len_bytes > 0);

        let byte_pos = scalar_pos * 4;
        let at = byte_offset_to_buffer_coord(&snapshot, &buffer_contents, byte_pos);
        let env = envelope(vec![PieceTextEditItemManifest::Insert {
            at,
            inserted: InsertedBufferManifest {
                len_bytes,
                ciphertext_len: len_bytes + 16,
                ciphertext_value_hash: [0xC1; 32],
            },
        }]);
        let out = run_unwrap(snapshot.clone(), buffers.clone(), &env);

        oracle.splice(scalar_pos..scalar_pos, payload.iter().copied());

        let new_buffer_id = out.buffer_inserts[0].new_id;
        buffer_contents.insert(new_buffer_id, payload_utf32);
        apply_planner_output(&mut snapshot, &mut buffers, &out);

        let rendered = decode_utf32le(&render_chain(&snapshot, &buffer_contents));
        let expected: String = oracle.iter().collect();
        assert_eq!(rendered, expected, "oracle mismatch on round {round}");
    }
}

#[test]
fn random_insert_delete_property_matches_string_oracle() {

    let seed = 0xABCDEF12_u64;
    let mut rng = LcgRng::new(seed);

    let mut oracle: Vec<char> = Vec::new();
    let mut buffer_contents: HashMap<i64, Vec<u8>> = HashMap::new();
    let mut snapshot = empty_snapshot(1);
    let mut buffers = empty_buffers(1);

    let palette: &[char] = &['x', 'y', 'z', '\u{00F1}', '\u{2603}', '\u{1F4A1}'];

    {
        let payload: Vec<char> = "hello".chars().collect();
        let payload_utf32 = utf32le(&payload);
        let len_bytes = payload_utf32.len() as u32;
        let env = envelope(vec![PieceTextEditItemManifest::Insert {
            at: BufferCoord::document_start(),
            inserted: InsertedBufferManifest {
                len_bytes,
                ciphertext_len: len_bytes + 16,
                ciphertext_value_hash: [0; 32],
            },
        }]);
        let out = run_unwrap(snapshot.clone(), buffers.clone(), &env);
        oracle.splice(0..0, payload.iter().copied());
        buffer_contents.insert(out.buffer_inserts[0].new_id, payload_utf32);
        apply_planner_output(&mut snapshot, &mut buffers, &out);
    }

    for round in 0..50 {
        let oracle_chars = oracle.len();
        let do_insert = oracle_chars == 0 || rng.next() % 3 != 0;
        if do_insert {
            let scalar_pos = (rng.next() as usize) % (oracle_chars + 1);
            let payload_chars = 1 + (rng.next() as usize) % 3;
            let payload: Vec<char> = (0..payload_chars)
                .map(|_| palette[(rng.next() as usize) % palette.len()])
                .collect();
            let payload_utf32 = utf32le(&payload);
            let len_bytes = payload_utf32.len() as u32;
            let at = byte_offset_to_buffer_coord(&snapshot, &buffer_contents, scalar_pos * 4);
            let env = envelope(vec![PieceTextEditItemManifest::Insert {
                at,
                inserted: InsertedBufferManifest {
                    len_bytes,
                    ciphertext_len: len_bytes + 16,
                    ciphertext_value_hash: [0xAB; 32],
                },
            }]);
            let out = run_unwrap(snapshot.clone(), buffers.clone(), &env);
            oracle.splice(scalar_pos..scalar_pos, payload.iter().copied());
            buffer_contents.insert(out.buffer_inserts[0].new_id, payload_utf32);
            apply_planner_output(&mut snapshot, &mut buffers, &out);
        } else {
            let a = (rng.next() as usize) % (oracle_chars + 1);
            let b = (rng.next() as usize) % (oracle_chars + 1);
            let (s_chars, e_chars) = if a <= b { (a, b) } else { (b, a) };
            if s_chars == e_chars {
                continue;
            }
            let start = byte_offset_to_buffer_coord(&snapshot, &buffer_contents, s_chars * 4);
            let end = byte_offset_to_buffer_coord(&snapshot, &buffer_contents, e_chars * 4);
            let env = envelope(vec![PieceTextEditItemManifest::Delete { start, end }]);
            let out = run_unwrap(snapshot.clone(), buffers.clone(), &env);
            oracle.drain(s_chars..e_chars);
            apply_planner_output(&mut snapshot, &mut buffers, &out);
        }
        let rendered = decode_utf32le(&render_chain(&snapshot, &buffer_contents));
        let expected: String = oracle.iter().collect();
        assert_eq!(rendered, expected, "oracle mismatch on round {round}");
    }
}

fn utf32le(chars: &[char]) -> Vec<u8> {
    chars
        .iter()
        .flat_map(|c| (*c as u32).to_le_bytes())
        .collect()
}

fn decode_utf32le(bytes: &[u8]) -> String {
    bytes
        .chunks_exact(4)
        .map(|c| {
            char::from_u32(u32::from_le_bytes([c[0], c[1], c[2], c[3]]))
                .expect("valid UTF-32 scalar")
        })
        .collect()
}

#[test]
fn random_insert_property_matches_byte_oracle() {
    let seed = 0xC0FFEE_u64;
    let mut rng = LcgRng::new(seed);

    let mut oracle: Vec<u8> = Vec::new();
    let mut buffer_contents: HashMap<i64, Vec<u8>> = HashMap::new();
    let mut snapshot = empty_snapshot(1);
    let mut buffers = empty_buffers(1);

    for round in 0..30 {
        let oracle_len = oracle.len();
        let pos = if oracle_len == 0 {
            0
        } else {
            ((rng.next() as usize) % (oracle_len / 4 + 1)) * 4
        };
        let payload_len = (1 + (rng.next() as usize) % 4) * 4;
        let payload: Vec<u8> = (0..payload_len)
            .map(|_| (rng.next() as u8).wrapping_add(0x41))
            .collect();

        let at = byte_offset_to_buffer_coord(&snapshot, &buffer_contents, pos);
        let env = envelope(vec![PieceTextEditItemManifest::Insert {
            at,
            inserted: InsertedBufferManifest {
                len_bytes: payload_len as u32,
                ciphertext_len: payload_len as u32 + 16,
                ciphertext_value_hash: [0xCC; 32],
            },
        }]);
        let out = run_unwrap(snapshot.clone(), buffers.clone(), &env);

        oracle.splice(pos..pos, payload.iter().copied());

        let new_buffer_id = out.buffer_inserts[0].new_id;
        buffer_contents.insert(new_buffer_id, payload.clone());

        apply_planner_output(&mut snapshot, &mut buffers, &out);

        let rendered = render_chain(&snapshot, &buffer_contents);
        assert_eq!(rendered, oracle, "oracle mismatch on round {round}");
    }
}

fn byte_offset_to_buffer_coord(
    snap: &PieceSnapshot,
    bufs: &HashMap<i64, Vec<u8>>,
    pos: usize,
) -> BufferCoord {
    let _ = bufs;
    if snap.head_id == 0 {
        return BufferCoord::document_start();
    }
    let mut consumed: usize = 0;
    let mut last_live: Option<&PieceRow> = None;
    let mut cursor = snap.head_id;
    while cursor != 0 {
        let row = snap.pieces.iter().find(|r| r.id == cursor).expect("row");
        if !row.coord.tombstone {
            let len = row.coord.len_bytes as usize;
            if pos == consumed {
                return match last_live {
                    None => BufferCoord::document_start(),
                    Some(prev) => BufferCoord {
                        buffer_id: prev.coord.buffer_id,
                        byte_pos: prev.coord.start_byte + prev.coord.len_bytes,
                    },
                };
            }
            if pos > consumed && pos < consumed + len {
                let interior_offset = (pos - consumed) as u32;
                return BufferCoord {
                    buffer_id: row.coord.buffer_id,
                    byte_pos: row.coord.start_byte + interior_offset,
                };
            }
            consumed += len;
            last_live = Some(row);
        }
        cursor = row.next_id;
    }
    match last_live {
        Some(prev) => BufferCoord {
            buffer_id: prev.coord.buffer_id,
            byte_pos: prev.coord.start_byte + prev.coord.len_bytes,
        },
        None => BufferCoord::document_start(),
    }
}

fn render_chain(snap: &PieceSnapshot, bufs: &HashMap<i64, Vec<u8>>) -> Vec<u8> {
    let mut out = Vec::new();
    let mut cursor = snap.head_id;
    while cursor != 0 {
        let row = snap.pieces.iter().find(|r| r.id == cursor).expect("row");
        if !row.coord.tombstone {
            let buf = bufs.get(&row.coord.buffer_id).expect("buf in test map");
            let start = row.coord.start_byte as usize;
            let end = start + row.coord.len_bytes as usize;
            out.extend_from_slice(&buf[start..end]);
        }
        cursor = row.next_id;
    }
    out
}

fn apply_planner_output(snap: &mut PieceSnapshot, bufs: &mut BufferSnapshot, out: &PlannerOutput) {

    let mut by_id: HashMap<i64, PieceRow> =
        snap.pieces.iter().cloned().map(|r| (r.id, r)).collect();
    for ins in &out.piece_inserts {
        by_id.insert(
            ins.new_id,
            PieceRow {
                id: ins.new_id,
                list_number: ins.list_number,
                prev_id: ins.prev_id,
                next_id: ins.next_id,
                coord: ins.coord,
            },
        );
    }
    for upd in &out.piece_updates {
        let row = by_id.get_mut(&upd.id).expect("update target row");
        if let Some(p) = upd.prev_id {
            row.prev_id = p;
        }
        if let Some(n) = upd.next_id {
            row.next_id = n;
        }
        if let Some(c) = upd.coord {
            row.coord = c;
        }
    }
    snap.pieces = by_id.into_values().collect();
    snap.pieces.sort_by_key(|r| r.id);
    if let Some(h) = out.head_update {
        snap.head_id = h;
    }
    if let Some(t) = out.tail_update {
        snap.tail_id = t;
    }
    if let Some(p) = out.piece_next_id_post {
        snap.pre_piece_next_id = p;
    }
    if let Some(p) = out.buffers_next_id_post {
        bufs.pre_buffers_next_id = p;
    }
    for bi in &out.buffer_inserts {
        bufs.buffers.push(BufferMeta {
            id: bi.new_id,
            owner_table: bi.owner_table.clone(),
            owner_row_id: bi.owner_row_id,
            owner_column: bi.owner_column.clone(),
            author_id: bi.author_id,
            len_bytes: bi.len_bytes,
        });
    }
}

struct LcgRng(u64);
impl LcgRng {
    fn new(seed: u64) -> Self {
        LcgRng(seed)
    }
    fn next(&mut self) -> u32 {
        self.0 = self
            .0
            .wrapping_mul(6364136223846793005)
            .wrapping_add(1442695040888963407);
        (self.0 >> 32) as u32
    }
}

#[test]
fn random_insert_delete_property_matches_byte_oracle() {

    let seed = 0xDEADBEEF_u64;
    let mut rng = LcgRng::new(seed);

    let mut oracle: Vec<u8> = Vec::new();
    let mut buffer_contents: HashMap<i64, Vec<u8>> = HashMap::new();
    let mut snapshot = empty_snapshot(1);
    let mut buffers = empty_buffers(1);

    {
        let payload = b"hellobye".to_vec();
        let env = envelope(vec![PieceTextEditItemManifest::Insert {
            at: BufferCoord::document_start(),
            inserted: InsertedBufferManifest {
                len_bytes: payload.len() as u32,
                ciphertext_len: payload.len() as u32 + 16,
                ciphertext_value_hash: [0; 32],
            },
        }]);
        let out = run_unwrap(snapshot.clone(), buffers.clone(), &env);
        oracle.splice(0..0, payload.iter().copied());
        buffer_contents.insert(out.buffer_inserts[0].new_id, payload);
        apply_planner_output(&mut snapshot, &mut buffers, &out);
    }

    for _round in 0..40 {
        let do_insert = oracle.is_empty() || rng.next() % 3 != 0;
        if do_insert {
            let pos = ((rng.next() as usize) % (oracle.len() / 4 + 1)) * 4;
            let payload_len = (1 + (rng.next() as usize) % 3) * 4;
            let payload: Vec<u8> = (0..payload_len)
                .map(|_| (rng.next() as u8).wrapping_add(0x21))
                .collect();
            let at = byte_offset_to_buffer_coord(&snapshot, &buffer_contents, pos);
            let env = envelope(vec![PieceTextEditItemManifest::Insert {
                at,
                inserted: InsertedBufferManifest {
                    len_bytes: payload_len as u32,
                    ciphertext_len: payload_len as u32 + 16,
                    ciphertext_value_hash: [0xAB; 32],
                },
            }]);
            let out = run_unwrap(snapshot.clone(), buffers.clone(), &env);
            oracle.splice(pos..pos, payload.iter().copied());
            buffer_contents.insert(out.buffer_inserts[0].new_id, payload);
            apply_planner_output(&mut snapshot, &mut buffers, &out);
        } else {
            let slots = oracle.len() / 4;
            let a = ((rng.next() as usize) % (slots + 1)) * 4;
            let b = ((rng.next() as usize) % (slots + 1)) * 4;
            let (start, end) = if a <= b { (a, b) } else { (b, a) };
            if start == end {
                continue;
            }
            let start_coord = byte_offset_to_buffer_coord(&snapshot, &buffer_contents, start);
            let end_coord = byte_offset_to_buffer_coord(&snapshot, &buffer_contents, end);
            let env = envelope(vec![PieceTextEditItemManifest::Delete {
                start: start_coord,
                end: end_coord,
            }]);
            let out = run_unwrap(snapshot.clone(), buffers.clone(), &env);
            oracle.splice(start..end, std::iter::empty::<u8>());
            apply_planner_output(&mut snapshot, &mut buffers, &out);
        }
        let rendered = render_chain(&snapshot, &buffer_contents);
        assert_eq!(rendered, oracle, "oracle mismatch");
    }
}

/// The message that an edit of a document is refused with.
fn refusal(
    pieces: PieceSnapshot,
    buffers: BufferSnapshot,
    ops: Vec<PieceTextEditItemManifest>,
) -> String {
    run(pieces, buffers, &envelope(ops)).unwrap_err().message()
}

fn insert_item(buffer_id: i64, byte_pos: u32, len_bytes: u32) -> PieceTextEditItemManifest {
    PieceTextEditItemManifest::Insert {
        at: BufferCoord { buffer_id, byte_pos },
        inserted: manifest(len_bytes, 1),
    }
}

/// Two rows of four bytes each, of two buffers.
fn two_rows() -> (PieceSnapshot, BufferSnapshot) {
    let piece = |id: i64, prev_id: i64, next_id: i64| PieceRow {
        id,
        list_number: LIST_NUMBER,
        prev_id,
        next_id,
        coord: PieceCoord { buffer_id: id, start_byte: 0, len_bytes: 4, tombstone: false },
    };
    (
        PieceSnapshot {
            list_number: LIST_NUMBER,
            head_id: 1,
            tail_id: 2,
            pieces: vec![piece(1, 0, 2), piece(2, 1, 0)],
            pre_piece_next_id: 3,
        },
        BufferSnapshot {
            buffers: vec![buffer_meta(1, 4), buffer_meta(2, 4)],
            pre_buffers_next_id: 3,
        },
    )
}

/// Puts the second of two rows first.
fn reverse(pieces: &mut PieceSnapshot) {
    pieces.head_id = 2;
    pieces.tail_id = 1;
    pieces.pieces[0].prev_id = 2;
    pieces.pieces[0].next_id = 0;
    pieces.pieces[1].prev_id = 0;
    pieces.pieces[1].next_id = 1;
}

/// The message that a change to the rows makes an edit be refused with.
fn broken_rows(change: impl Fn(&mut PieceSnapshot)) -> String {
    let (mut pieces, buffers) = two_rows();
    change(&mut pieces);
    refusal(pieces, buffers, vec![insert_item(0, 0, 4)])
}

fn broken_buffers(change: impl Fn(&mut BufferSnapshot)) -> String {
    let (pieces, mut buffers) = two_rows();
    change(&mut buffers);
    refusal(pieces, buffers, vec![insert_item(0, 0, 4)])
}

#[test]
fn snapshots_of_rows_are_refused_for_these_reasons() {
    let (pieces, buffers) = two_rows();
    run_unwrap(pieces, buffers, &envelope(vec![insert_item(0, 0, 4)]));
    assert_eq!(
        broken_rows(|s| s.pre_piece_next_id = 0),
        "snapshot invariant: pre_piece_next_id must be >= 1"
    );
    assert_eq!(
        broken_rows(|s| s.list_number = 0),
        "snapshot invariant: list_number must be positive"
    );
    assert_eq!(
        broken_rows(|s| s.pieces[0].id = -1),
        "snapshot invariant: piece row id must be positive (got -1)"
    );
    assert_eq!(
        broken_rows(|s| s.pre_piece_next_id = 2),
        "snapshot invariant: piece row id 2 is >= pre_piece_next_id 2"
    );
    assert_eq!(
        broken_rows(|s| s.pieces[1].list_number = 9),
        "row 2 belongs to list 9, expected 1"
    );
    assert_eq!(
        broken_rows(|s| s.pieces[1].coord.len_bytes = 0),
        "snapshot invariant: piece row 2 has len_bytes == 0"
    );
    assert_eq!(
        broken_rows(|s| s.pieces[1].id = 1),
        "snapshot invariant: duplicate piece row id 1 in snapshot"
    );
    assert_eq!(
        broken_rows(|s| s.head_id = 7),
        "snapshot invariant: head_id 7 not in snapshot"
    );
    assert_eq!(
        broken_rows(|s| s.pieces[0].prev_id = 2),
        "snapshot invariant: head row 1 has non-zero prev_id 2"
    );
    assert_eq!(
        broken_rows(|s| s.tail_id = 7),
        "snapshot invariant: tail_id 7 not in snapshot"
    );
    assert_eq!(
        broken_rows(|s| s.pieces[1].next_id = 1),
        "snapshot invariant: tail row 2 has non-zero next_id 1"
    );
    assert_eq!(
        broken_rows(|s| s.head_id = 0),
        "snapshot invariant: head_id and tail_id must both be 0 or both be non-zero"
    );
    assert_eq!(
        broken_rows(|s| {
            reverse(s);
            s.pieces[0].prev_id = 8;
        }),
        "snapshot invariant: row 1 prev_id 8 not in snapshot"
    );
    assert_eq!(
        broken_rows(|s| {
            reverse(s);
            s.pieces[0].prev_id = 0;
        }),
        "snapshot invariant: row 1 has prev_id 0 but is not head"
    );
    assert_eq!(
        broken_rows(|s| s.pieces[0].next_id = 8),
        "snapshot invariant: row 1 next_id 8 not in snapshot"
    );
    assert_eq!(
        broken_rows(|s| s.pieces[1].prev_id = 2),
        "snapshot invariant: row 1 prev/next pointers inconsistent"
    );
    assert_eq!(
        broken_rows(|s| s.pieces[0].next_id = 0),
        "snapshot invariant: row 1 has next_id 0 but is not tail"
    );
    assert_eq!(
        broken_rows(|s| s.pieces[0].coord.start_byte = u32::MAX),
        "snapshot invariant: piece row 1 coord overflow"
    );
    assert_eq!(
        broken_rows(|s| s.pieces[0].coord.start_byte = 4),
        "snapshot invariant: piece row 1 range exceeds buffer 1 len_bytes (8 > 4)"
    );
}

#[test]
fn snapshots_of_buffers_are_refused_for_these_reasons() {
    assert_eq!(
        broken_buffers(|s| s.pre_buffers_next_id = 0),
        "snapshot invariant: pre_buffers_next_id must be >= 1"
    );
    assert_eq!(
        broken_buffers(|s| s.buffers[0].id = 0),
        "snapshot invariant: buffer id must be positive (got 0)"
    );
    assert_eq!(
        broken_buffers(|s| s.pre_buffers_next_id = 2),
        "snapshot invariant: buffer id 2 is >= pre_buffers_next_id 2"
    );
    assert_eq!(
        broken_buffers(|s| s.buffers[0].len_bytes = 0),
        "snapshot invariant: buffer 1 has invalid len_bytes 0"
    );
    assert_eq!(
        broken_buffers(|s| s.buffers[1].id = 1),
        "snapshot invariant: duplicate buffer id 1 in snapshot"
    );
    assert_eq!(
        broken_buffers(|s| s.buffers.truncate(1)),
        "snapshot invariant: piece row 2 references buffer_id 2 not in snapshot"
    );
}

#[test]
fn steps_are_refused_for_these_reasons() {
    let planned = |ops: Vec<PieceTextEditItemManifest>| {
        let (pieces, buffers) = two_rows();
        refusal(pieces, buffers, ops)
    };
    assert_eq!(planned(vec![insert_item(9, 0, 4)]), "buffer 9 not in snapshot");
    assert_eq!(
        planned(vec![insert_item(1, 12, 4)]),
        "unknown coordinate (buffer_id=1, byte_pos=12, purpose=InsertAnchor): no live or tombstoned piece covers this byte coordinate"
    );
    assert_eq!(
        planned(vec![insert_item(-1, 0, 4)]),
        "invalid coordinate: non-DOCUMENT_START coordinate must reference buffer_id > 0, got -1"
    );
    assert_eq!(planned(vec![insert_item(0, 0, 0)]), "invalid edit: Insert.len_bytes must be > 0");
    assert_eq!(
        planned(vec![insert_item(0, 0, 4194308)]),
        "invalid edit: Insert.len_bytes 4194308 exceeds MAX_BUFFER_LEN_BYTES 4194304"
    );
    assert_eq!(
        planned(vec![insert_item(0, 0, 4), insert_item(3, 0, 4)]),
        "invalid coordinate: edit op 1 targets buffer_id 3 allocated by an earlier Insert in this same edit"
    );
    let delete = |start: (i64, u32), end: (i64, u32)| PieceTextEditItemManifest::Delete {
        start: BufferCoord { buffer_id: start.0, byte_pos: start.1 },
        end: BufferCoord { buffer_id: end.0, byte_pos: end.1 },
    };
    assert_eq!(
        planned(vec![insert_item(0, 0, 4), delete((3, 0), (1, 4))]),
        "invalid coordinate: edit op 1 delete start targets buffer_id 3 allocated by an earlier Insert in this same edit"
    );
    assert_eq!(
        planned(vec![insert_item(0, 0, 4), delete((1, 0), (3, 4))]),
        "invalid coordinate: edit op 1 delete end targets buffer_id 3 allocated by an earlier Insert in this same edit"
    );
    assert_eq!(
        planned(vec![delete((2, 4), (1, 0))]),
        "invalid edit: delete start resolved past delete end"
    );
}

#[test]
fn steps_splice_and_cut_the_text() {
    let (mut pieces, mut buffers) = two_rows();
    let mut text: HashMap<i64, Vec<u8>> = HashMap::new();
    text.insert(1, b"aaaa".to_vec());
    text.insert(2, b"bbbb".to_vec());
    text.insert(3, b"cccc".to_vec());
    let out = run_unwrap(pieces.clone(), buffers.clone(), &envelope(vec![insert_item(1, 4, 4)]));
    apply_planner_output(&mut pieces, &mut buffers, &out);
    assert_eq!(render_chain(&pieces, &text), b"aaaaccccbbbb");
    let cut = PieceTextEditItemManifest::Delete {
        start: BufferCoord { buffer_id: 3, byte_pos: 0 },
        end: BufferCoord { buffer_id: 2, byte_pos: 4 },
    };
    let out = run_unwrap(pieces.clone(), buffers.clone(), &envelope(vec![cut]));
    apply_planner_output(&mut pieces, &mut buffers, &out);
    assert_eq!(render_chain(&pieces, &text), b"aaaa");
    assert!(pieces.pieces.iter().all(|r| r.coord.validate_utf32_alignment().is_ok()));
}

/// A chain of rows 1 and 2 in buffer 1, beside rows 3 and 4 of buffer 2 that only
/// point at each other.
fn doc_with_ring() -> (PieceSnapshot, BufferSnapshot) {
    let row = |id, prev_id, next_id, buffer_id, start_byte| PieceRow {
        id,
        list_number: LIST_NUMBER,
        prev_id,
        next_id,
        coord: PieceCoord { buffer_id, start_byte, len_bytes: 8, tombstone: false },
    };
    let pieces = PieceSnapshot {
        list_number: LIST_NUMBER,
        head_id: 1,
        tail_id: 2,
        pieces: vec![row(1, 0, 2, 1, 0), row(2, 1, 0, 1, 8), row(3, 4, 4, 2, 0), row(4, 3, 3, 2, 8)],
        pre_piece_next_id: 5,
    };
    let buffers = BufferSnapshot {
        buffers: vec![buffer_meta(1, 16), buffer_meta(2, 16)],
        pre_buffers_next_id: 3,
    };
    (pieces, buffers)
}

#[test]
fn rows_beside_the_chain_leave_text_alone() {
    let (mut pieces, mut buffers) = doc_with_ring();
    let mut contents: HashMap<i64, Vec<u8>> = HashMap::new();
    contents.insert(1, (0..16).collect());
    contents.insert(2, vec![0xEE; 16]);
    contents.insert(3, vec![0xFF; 4]);

    let at = byte_offset_to_buffer_coord(&pieces, &contents, 12);
    assert_eq!(at, BufferCoord { buffer_id: 1, byte_pos: 12 });
    let env = envelope(vec![PieceTextEditItemManifest::Insert { at, inserted: manifest(4, 1) }]);
    let out = run_unwrap(pieces.clone(), buffers.clone(), &env);
    apply_planner_output(&mut pieces, &mut buffers, &out);
    let mut expected: Vec<u8> = (0..12).collect();
    expected.extend([0xFF; 4]);
    expected.extend(12..16);
    assert_eq!(render_chain(&pieces, &contents), expected);

    let start = byte_offset_to_buffer_coord(&pieces, &contents, 4);
    let end = byte_offset_to_buffer_coord(&pieces, &contents, 16);
    let env = envelope(vec![PieceTextEditItemManifest::Delete { start, end }]);
    let out = run_unwrap(pieces.clone(), buffers.clone(), &env);
    assert!(out.buffer_inserts.is_empty());
    apply_planner_output(&mut pieces, &mut buffers, &out);
    assert_eq!(render_chain(&pieces, &contents), vec![0, 1, 2, 3, 12, 13, 14, 15]);
    assert!(WorkingCopy::from_snapshot(&pieces, &buffers).is_ok());
}

#[test]
fn written_plans_leave_snapshots_that_are_accepted() {
    let (mut pieces, mut buffers) = doc_with_ring();
    let insert = |buffer_id, byte_pos| PieceTextEditItemManifest::Insert {
        at: BufferCoord { buffer_id, byte_pos },
        inserted: manifest(4, 1),
    };
    let delete = |b1, p1, b2, p2| PieceTextEditItemManifest::Delete {
        start: BufferCoord { buffer_id: b1, byte_pos: p1 },
        end: BufferCoord { buffer_id: b2, byte_pos: p2 },
    };
    let edits = [
        vec![insert(0, 0)],
        vec![insert(1, 4)],
        vec![insert(2, 12), insert(1, 16)],
        vec![delete(1, 2, 1, 14)],
        vec![delete(2, 2, 2, 6)],
        vec![delete(0, 0, 1, 16), insert(1, 16)],
    ];
    for (n, ops) in edits.into_iter().enumerate() {
        let out = run_unwrap(pieces.clone(), buffers.clone(), &envelope(ops));
        apply_planner_output(&mut pieces, &mut buffers, &out);
        let accepted = WorkingCopy::from_snapshot(&pieces, &buffers);
        assert!(accepted.is_ok(), "edit {n}: {:?}", accepted.err());
        for a in &pieces.pieces {
            for b in &pieces.pieces {
                let (x, y) = (a.coord, b.coord);
                let apart = x.buffer_id != y.buffer_id
                    || x.start_byte + x.len_bytes <= y.start_byte
                    || y.start_byte + y.len_bytes <= x.start_byte;
                assert!(a.id == b.id || apart, "edit {n}: {x:?} {y:?}");
            }
        }
    }
}

#[test]
fn broken_links_are_still_told_from_accepted_ones() {
    let (mut pieces, buffers) = doc_with_ring();
    pieces.pieces[2].next_id = 3;
    assert!(WorkingCopy::from_snapshot(&pieces, &buffers).is_err());
}
