//! Manifests of edits: their shape, their bytes and their keys.

use changelog_core::changelog::{root_tree_path, ChangelogEntry, ChangelogError, KvData, LogMessage};
use changelog_core::faults::OpType;
use changelog_core::piece_text::{
    validate_piece_text_inserted_bodies, BufferCoord, InsertedBufferManifest, PieceCoord,
    PieceTextAddress, PieceTextEditEnvelopeV1, PieceTextEditItemManifest, PieceTextEditManifest,
    ValidatedPieceTextInsertedBody, MAX_PIECETEXT_CLEAR_BUFFER_BYTES,
    MAX_PIECETEXT_ENCRYPTED_BODY_BYTES, PIECE_TEXT_ENVELOPE_VERSION_V1,
};
use changelog_core::storage::StorageKey;

fn sample_envelope() -> PieceTextEditEnvelopeV1 {
    PieceTextEditEnvelopeV1 {
        version: PIECE_TEXT_ENVELOPE_VERSION_V1,
        op_id: [7u8; 16],
        address: PieceTextAddress {
            table: "channels".to_string(),
            row_id: 42,
            column: "notes_pieces".to_string(),
        },
        edit: PieceTextEditManifest {
            ops: vec![PieceTextEditItemManifest::Insert {
                at: BufferCoord::document_start(),
                inserted: InsertedBufferManifest {
                    len_bytes: 4,
                    ciphertext_len: 64,
                    ciphertext_value_hash: [9u8; 32],
                },
            }],
        },
    }
}

fn entry_with_kv(kv: KvData) -> ChangelogEntry {
    ChangelogEntry {
        timestamp: 1,
        uid: 2,
        parent_change: 0,
        message: LogMessage {
            op_type: OpType::PieceTextEdit,
            tree_path: root_tree_path(),
            entries: vec![kv],
        },
        sig_ref: 0,
        parent_clc: [0u8; 32],
        signature: vec![],
    }
}

#[test]
fn envelope_round_trip_preserves_canonical_bytes() {
    let envelope = sample_envelope();
    let bytes = envelope.canonical_bytes().unwrap();
    let decoded = PieceTextEditEnvelopeV1::from_canonical_bytes(&bytes).unwrap();
    assert_eq!(decoded, envelope);
    assert_eq!(decoded.canonical_bytes().unwrap(), bytes);
}

#[test]
fn rejects_unknown_envelope_versions() {
    let mut envelope = sample_envelope();
    envelope.version = 2;
    let bytes = envelope.canonical_bytes().unwrap();
    let err = PieceTextEditEnvelopeV1::from_canonical_bytes(&bytes).unwrap_err();
    assert!(err.message().contains("unsupported"));
}

#[test]
fn rejects_degenerate_addresses() {
    for envelope in [
        {
            let mut e = sample_envelope();
            e.address.table.clear();
            e
        },
        {
            let mut e = sample_envelope();
            e.address.column.clear();
            e
        },
        {
            let mut e = sample_envelope();
            e.address.row_id = 0;
            e
        },
    ] {
        let err = envelope.validate().unwrap_err();
        assert!(
            err.message().contains("PieceTextAddress"),
            "unexpected error: {err:?}"
        );
    }
}

#[test]
fn rejects_wrong_entry_key_tag() {
    let envelope = sample_envelope();
    let kv = KvData {
        key: StorageKey::Column {
            table: "channels".to_string(),
            row_id: 42,
            column: "notes_pieces".to_string(),
        },
        value: envelope.canonical_bytes().unwrap(),
    };
    let entry = entry_with_kv(kv);
    let err = PieceTextEditEnvelopeV1::decode_from_entry(&entry).unwrap_err();
    assert!(
        err.message().contains("PT tag"),
        "unexpected error: {err:?}"
    );
}

#[test]
fn rejects_key_envelope_address_mismatch() {
    let envelope = sample_envelope();
    let kv = KvData {
        key: StorageKey::PieceTextEdit {
            address: PieceTextAddress {
                table: "channels".to_string(),
                row_id: 43,
                column: "notes_pieces".to_string(),
            },
            op_id: envelope.op_id,
        },
        value: envelope.canonical_bytes().unwrap(),
    };
    let entry = entry_with_kv(kv);
    let err = PieceTextEditEnvelopeV1::decode_from_entry(&entry).unwrap_err();
    assert!(err.message().contains("does not match"));
}

#[test]
fn rejects_oversized_insert_metadata() {
    let mut envelope = sample_envelope();
    if let PieceTextEditItemManifest::Insert { inserted, .. } = &mut envelope.edit.ops[0] {
        inserted.ciphertext_len = (MAX_PIECETEXT_ENCRYPTED_BODY_BYTES as u32) + 1;
    }
    let err = envelope.validate().unwrap_err();
    assert!(err.message().contains("ciphertext_len"));

    let mut envelope = sample_envelope();
    if let PieceTextEditItemManifest::Insert { inserted, .. } = &mut envelope.edit.ops[0] {
        inserted.len_bytes = MAX_PIECETEXT_CLEAR_BUFFER_BYTES + 1;
    }
    let err = envelope.validate().unwrap_err();
    assert!(err.message().contains("len_bytes"));
}

#[test]
fn buffer_coord_rejects_unaligned_byte_pos() {
    let coord = BufferCoord {
        buffer_id: 5,
        byte_pos: 6,
    };
    let err = coord.validate_shape().unwrap_err();
    assert!(
        err.message().contains("multiple of 4"),
        "unexpected error: {err:?}"
    );
    BufferCoord {
        buffer_id: 5,
        byte_pos: 8,
    }
    .validate_shape()
    .unwrap();
}

#[test]
fn inserted_manifest_rejects_unaligned_len_bytes() {
    let manifest = InsertedBufferManifest {
        len_bytes: 6,
        ciphertext_len: 64,
        ciphertext_value_hash: [0u8; 32],
    };
    let err = manifest.validate().unwrap_err();
    assert!(
        err.message().contains("multiple of 4"),
        "unexpected error: {err:?}"
    );
    InsertedBufferManifest {
        len_bytes: 8,
        ciphertext_len: 64,
        ciphertext_value_hash: [0u8; 32],
    }
    .validate()
    .unwrap();
}

#[test]
fn piece_coord_alignment_check() {
    PieceCoord {
        buffer_id: 1,
        start_byte: 8,
        len_bytes: 4,
        tombstone: false,
    }
    .validate_utf32_alignment()
    .unwrap();
    assert!(PieceCoord {
        buffer_id: 1,
        start_byte: 2,
        len_bytes: 4,
        tombstone: false,
    }
    .validate_utf32_alignment()
    .is_err());
    assert!(PieceCoord {
        buffer_id: 1,
        start_byte: 0,
        len_bytes: 5,
        tombstone: false,
    }
    .validate_utf32_alignment()
    .is_err());
}

/// The message that a value is refused with.
fn refusal<T>(r: Result<T, ChangelogError>) -> String {
    match r {
        Ok(_) => panic!("accepted"),
        Err(e) => e.message(),
    }
}

fn claim(len_bytes: u32, ciphertext_len: u32) -> InsertedBufferManifest {
    InsertedBufferManifest { len_bytes, ciphertext_len, ciphertext_value_hash: [9u8; 32] }
}

fn insert_of(ciphertext_len: u32) -> PieceTextEditItemManifest {
    PieceTextEditItemManifest::Insert {
        at: BufferCoord::document_start(),
        inserted: claim(4, ciphertext_len),
    }
}

fn delete() -> PieceTextEditItemManifest {
    PieceTextEditItemManifest::Delete {
        start: BufferCoord { buffer_id: 1, byte_pos: 0 },
        end: BufferCoord { buffer_id: 1, byte_pos: 4 },
    }
}

fn envelope_of(ops: Vec<PieceTextEditItemManifest>) -> PieceTextEditEnvelopeV1 {
    let mut envelope = sample_envelope();
    envelope.edit.ops = ops;
    envelope
}

#[test]
fn an_edit_has_these_bytes() {
    let mut envelope = sample_envelope();
    envelope.edit.ops.push(delete());
    let mut expected = vec![1u8];
    expected.extend([7u8; 16]);
    expected.push(8);
    expected.extend(b"channels");
    expected.push(84);
    expected.push(12);
    expected.extend(b"notes_pieces");
    expected.extend([2, 0, 0, 0, 4, 64]);
    expected.extend([9u8; 32]);
    expected.extend([1, 2, 0, 2, 4]);
    assert_eq!(envelope.canonical_bytes().unwrap(), expected);
    assert_eq!(PieceTextEditEnvelopeV1::from_canonical_bytes(&expected).unwrap(), envelope);
}

#[test]
fn different_edits_have_different_bytes() {
    let one = sample_envelope();
    let mut other = sample_envelope();
    other.address.row_id = 43;
    assert_ne!(one.canonical_bytes().unwrap(), other.canonical_bytes().unwrap());
}

#[test]
fn bytes_of_edits_are_refused_for_these_reasons() {
    let bytes = sample_envelope().canonical_bytes().unwrap();
    let mut trailing = bytes.clone();
    trailing.extend([0, 0]);
    assert_eq!(
        refusal(PieceTextEditEnvelopeV1::from_canonical_bytes(&trailing)),
        "PieceTextEditEnvelopeV1 has 2 trailing bytes"
    );
    assert_eq!(
        refusal(PieceTextEditEnvelopeV1::from_canonical_bytes(&bytes[..20])),
        "failed to decode PieceTextEditEnvelopeV1: Hit the end of buffer, expected more data"
    );
    // A length in more bytes than it needs.
    let mut padded = bytes[..17].to_vec();
    padded.extend([0x88, 0x00]);
    padded.extend(&bytes[18..]);
    assert_eq!(
        refusal(PieceTextEditEnvelopeV1::from_canonical_bytes(&padded)),
        "PieceTextEditEnvelopeV1 bytes are not canonical"
    );
    assert_eq!(
        refusal(PieceTextEditEnvelopeV1::from_canonical_bytes(&[1u8; 65537])),
        "PieceTextEditEnvelopeV1 is 65537 bytes, exceeding MAX_PIECETEXT_ENVELOPE_BYTES 65536"
    );
    let mut version = bytes.clone();
    version[0] = 2;
    assert_eq!(
        refusal(PieceTextEditEnvelopeV1::from_canonical_bytes(&version)),
        "unsupported PieceTextEditEnvelopeV1 version 2"
    );
}

#[test]
fn addresses_are_refused_for_these_reasons() {
    let address = |table: &str, row_id: i64, column: &str| PieceTextAddress {
        table: table.to_string(),
        row_id,
        column: column.to_string(),
    };
    address("_t9", 1, "C_0").validate().unwrap();
    assert_eq!(
        refusal(address("", 1, "c").validate()),
        "PieceTextAddress.table must not be empty"
    );
    assert_eq!(
        refusal(address("9t", 1, "c").validate()),
        "PieceTextAddress.table must start with an ASCII letter or underscore"
    );
    assert_eq!(
        refusal(address("t", 1, "c-d").validate()),
        "PieceTextAddress.column must contain only ASCII letters, digits, or underscores"
    );
    assert_eq!(
        refusal(address("t", 0, "c").validate()),
        "PieceTextAddress.row_id must be greater than 0"
    );
}

#[test]
fn coordinates_are_refused_for_these_reasons() {
    let at = |buffer_id: i64, byte_pos: u32| BufferCoord { buffer_id, byte_pos };
    at(0, 0).validate_shape().unwrap();
    assert_eq!(
        refusal(at(0, 4).validate_shape()),
        "DOCUMENT_START coordinate must use byte_pos 0"
    );
    assert_eq!(
        refusal(at(-1, 0).validate_shape()),
        "BufferCoord.buffer_id must be positive or DOCUMENT_START"
    );
    assert_eq!(
        refusal(at(5, 6).validate_shape()),
        "BufferCoord.byte_pos 6 is not a multiple of 4 (UTF-32 scalar boundary)"
    );
    let piece = PieceCoord { buffer_id: 1, start_byte: 2, len_bytes: 5, tombstone: false };
    assert_eq!(
        refusal(piece.validate_utf32_alignment()),
        "_piecetext_pieces coord is not UTF-32 aligned (start_byte=2, len_bytes=5); both must be multiples of 4"
    );
}

#[test]
fn inserted_buffers_are_refused_for_these_reasons() {
    claim(4194304, 262144).validate().unwrap();
    assert_eq!(
        refusal(claim(0, 64).validate()),
        "Inserted buffer len_bytes must be greater than 0"
    );
    assert_eq!(
        refusal(claim(4194308, 64).validate()),
        "Inserted buffer len_bytes 4194308 exceeds MAX_PIECETEXT_CLEAR_BUFFER_BYTES 4194304"
    );
    assert_eq!(
        refusal(claim(6, 64).validate()),
        "Inserted buffer len_bytes 6 is not a multiple of 4 (UTF-32 scalar boundary)"
    );
    assert_eq!(
        refusal(claim(4, 0).validate()),
        "Inserted buffer ciphertext_len must be greater than 0"
    );
    assert_eq!(
        refusal(claim(4, 262145).validate()),
        "Inserted buffer ciphertext_len 262145 exceeds MAX_PIECETEXT_ENCRYPTED_BODY_BYTES 262144"
    );
}

#[test]
fn edits_are_bounded_in_size() {
    assert_eq!(
        refusal(envelope_of(vec![]).validate()),
        "PieceTextEditManifest.ops must not be empty"
    );
    envelope_of(vec![delete(); 256]).validate().unwrap();
    assert_eq!(
        refusal(envelope_of(vec![delete(); 257]).validate()),
        "PieceTextEditManifest has 257 ops, exceeding MAX_PIECETEXT_OPS_PER_EDIT 256"
    );
    let widest = PieceTextEditManifest { ops: vec![insert_of(262144); 16] };
    widest.validate_size_caps().unwrap();
    assert_eq!(widest.insert_count(), 16);
    assert_eq!(widest.aggregate_ciphertext_len(), 4194304);
    assert_eq!(
        refusal(envelope_of(vec![insert_of(64); 17]).validate()),
        "PieceTextEditManifest has 17 inserted buffers, exceeding MAX_PIECETEXT_INSERTED_BUFFERS_PER_EDIT 16"
    );
    let heavy = PieceTextEditManifest { ops: vec![insert_of(600000), delete(), insert_of(8000000)] };
    assert_eq!(heavy.insert_count(), 2);
    assert_eq!(heavy.aggregate_ciphertext_len(), 8600000);
    assert_eq!(
        refusal(heavy.validate_size_caps()),
        "PieceTextEditManifest body bytes 8600000 exceeds MAX_PIECETEXT_BODY_BYTES 8388608"
    );
}

#[test]
fn entries_of_edits_are_refused_for_these_reasons() {
    let kv = sample_envelope().changelog_entry_kv().unwrap();
    assert_eq!(
        PieceTextEditEnvelopeV1::decode_from_entry(&entry_with_kv(kv.clone())).unwrap(),
        sample_envelope()
    );
    let mut other = entry_with_kv(kv.clone());
    other.message.op_type = OpType::Update;
    assert_eq!(
        refusal(PieceTextEditEnvelopeV1::decode_from_entry(&other)),
        "expected OpType::PieceTextEdit, got Update"
    );
    let mut elsewhere = entry_with_kv(kv.clone());
    elsewhere.message.tree_path = b"/a".to_vec();
    assert_eq!(
        refusal(PieceTextEditEnvelopeV1::decode_from_entry(&elsewhere)),
        "PieceTextEdit tree_path must be /"
    );
    let mut twice = entry_with_kv(kv.clone());
    twice.message.entries.push(kv.clone());
    assert_eq!(
        refusal(PieceTextEditEnvelopeV1::decode_from_entry(&twice)),
        "PieceTextEdit must carry exactly one manifest entry, got 2"
    );
    let garbled = KvData {
        key: StorageKey::Malformed { raw: vec![255], reason: "too short".to_string() },
        value: kv.value,
    };
    assert_eq!(
        refusal(PieceTextEditEnvelopeV1::decode_from_entry(&entry_with_kv(garbled))),
        "failed to parse piece-text entry key: too short"
    );
}

/// Bodies under the hash that the claims above give, but for one of length 5.
fn value_for(i: usize, body: &[u8]) -> Result<ValidatedPieceTextInsertedBody<usize>, ChangelogError> {
    if body.is_empty() {
        return Err(ChangelogError::Generic("no value".to_string()));
    }
    let value_hash = if body.len() == 5 { [0xabu8; 32] } else { [9u8; 32] };
    Ok(ValidatedPieceTextInsertedBody { value_hash, value: i + body.len() })
}

#[test]
fn inserted_bodies_are_taken_in_order() {
    let envelope = envelope_of(vec![insert_of(3), delete(), insert_of(4)]);
    let bodies = vec![vec![1u8; 3], vec![2u8; 4]];
    let validated = validate_piece_text_inserted_bodies(&envelope, &bodies, value_for).unwrap();
    let values: Vec<usize> = validated.iter().map(|v| v.value).collect();
    assert_eq!(values, vec![3, 5]);
    assert!(validated.iter().all(|v| v.value_hash == [9u8; 32]));
}

#[test]
fn values_are_asked_for_in_order_up_to_the_first_refusal() {
    let asked = |lengths: Vec<usize>| {
        let envelope = envelope_of(vec![insert_of(3), insert_of(5), insert_of(4)]);
        let bodies: Vec<Vec<u8>> = lengths.iter().map(|n| vec![0u8; *n]).collect();
        let mut calls: Vec<(usize, usize)> = vec![];
        let result = validate_piece_text_inserted_bodies(&envelope, &bodies, |i, body: &[u8]| {
            calls.push((i, body.len()));
            value_for(i, body)
        });
        assert!(result.is_err());
        calls
    };
    assert_eq!(asked(vec![3, 5]), vec![]);
    assert_eq!(asked(vec![2, 5, 4]), vec![]);
    assert_eq!(asked(vec![3, 6, 4]), vec![(0, 3)]);
    assert_eq!(asked(vec![3, 5, 4]), vec![(0, 3), (1, 5)]);
}

#[test]
fn inserted_bodies_are_refused_for_these_reasons() {
    let check = |claims: Vec<u32>, lengths: Vec<usize>| {
        let envelope = envelope_of(claims.iter().map(|c| insert_of(*c)).collect());
        let bodies: Vec<Vec<u8>> = lengths.iter().map(|n| vec![0u8; *n]).collect();
        refusal(validate_piece_text_inserted_bodies(&envelope, &bodies, value_for))
    };
    assert_eq!(
        check(vec![3, 4], vec![3]),
        "PieceTextEdit inserted body count 1 does not match manifest insert count 2"
    );
    assert_eq!(
        check(vec![3, 4], vec![3, 6]),
        "PieceTextEdit inserted body 1 has 6 bytes, but manifest claims 4"
    );
    assert_eq!(
        check(vec![262145], vec![262145]),
        "PieceTextEdit inserted body 0 has 262145 bytes, exceeding MAX_PIECETEXT_ENCRYPTED_BODY_BYTES 262144"
    );
    assert_eq!(
        check(vec![8388609], vec![8388609]),
        "PieceTextEdit inserted bodies total 8388609 bytes exceeds MAX_PIECETEXT_BODY_BYTES 8388608"
    );
    assert_eq!(check(vec![0], vec![0]), "no value");
    assert_eq!(
        check(vec![5], vec![5]),
        format!(
            "PieceTextEdit inserted body 0 value_hash {} does not match manifest {}",
            "ab".repeat(32),
            "09".repeat(32)
        )
    );
}
