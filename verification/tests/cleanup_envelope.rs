//! Manifests of cleanups.

use changelog_core::changelog::{root_tree_path, ChangelogEntry, ChangelogError};
use changelog_core::faults::{EntryKeyKind, KeyFault, OpType};
use changelog_core::piece_text::{
    PieceTextAddress, PieceTextEditEnvelopeV1, PieceTextEditManifest, PIECE_TEXT_ENVELOPE_VERSION_V1,
};
use changelog_core::piece_text_cleanup::{
    PieceTextCleanupBuffersEnvelopeV1, PieceTextCleanupPiecesEnvelopeV1, PieceTextCleanupRunV1,
    MAX_PIECE_TEXT_CLEANUP_BUFFER_REMOVALS, MAX_PIECE_TEXT_CLEANUP_PIECE_REMOVALS,
    MAX_PIECE_TEXT_CLEANUP_RUNS, PIECE_TEXT_CLEANUP_ENVELOPE_VERSION_V1,
};
use changelog_core::storage::StorageKey;

fn address() -> PieceTextAddress {
    PieceTextAddress {
        table: "channels".to_string(),
        row_id: 42,
        column: "notes_pieces".to_string(),
    }
}

fn pieces_envelope() -> PieceTextCleanupPiecesEnvelopeV1 {
    PieceTextCleanupPiecesEnvelopeV1 {
        version: PIECE_TEXT_CLEANUP_ENVELOPE_VERSION_V1,
        address: address(),
        list_number: 7,
        op_id: 99,
        runs: vec![
            PieceTextCleanupRunV1 {
                removals: vec![10, 11],
            },
            PieceTextCleanupRunV1 { removals: vec![21] },
        ],
    }
}

fn buffers_envelope() -> PieceTextCleanupBuffersEnvelopeV1 {
    PieceTextCleanupBuffersEnvelopeV1 {
        version: PIECE_TEXT_CLEANUP_ENVELOPE_VERSION_V1,
        address: address(),
        op_id: 99,
        buffer_removals: vec![30, 40],
    }
}

fn pieces_entry(envelope: &PieceTextCleanupPiecesEnvelopeV1) -> ChangelogEntry {
    ChangelogEntry {
        timestamp: 1,
        uid: 0,
        parent_change: 0,
        message: envelope.changelog_message().unwrap(),
        sig_ref: 0,
        parent_clc: [0u8; 32],
        signature: vec![],
    }
}

fn buffers_entry(envelope: &PieceTextCleanupBuffersEnvelopeV1) -> ChangelogEntry {
    ChangelogEntry {
        timestamp: 1,
        uid: 0,
        parent_change: 0,
        message: envelope.changelog_message().unwrap(),
        sig_ref: 0,
        parent_clc: [0u8; 32],
        signature: vec![],
    }
}

#[test]
fn piece_text_cleanup_pieces_envelope_roundtrip() {
    let env = pieces_envelope();
    let bytes = env.canonical_bytes().unwrap();
    let decoded = PieceTextCleanupPiecesEnvelopeV1::from_canonical_bytes(&bytes).unwrap();
    assert_eq!(decoded, env);

    let entry = pieces_entry(&env);
    assert_eq!(
        PieceTextCleanupPiecesEnvelopeV1::decode_from_entry(&entry).unwrap(),
        env
    );
}

#[test]
fn piece_text_cleanup_buffers_envelope_roundtrip() {
    let env = buffers_envelope();
    let bytes = env.canonical_bytes().unwrap();
    let decoded = PieceTextCleanupBuffersEnvelopeV1::from_canonical_bytes(&bytes).unwrap();
    assert_eq!(decoded, env);

    let entry = buffers_entry(&env);
    assert_eq!(
        PieceTextCleanupBuffersEnvelopeV1::decode_from_entry(&entry).unwrap(),
        env
    );
}

#[test]
fn piece_text_cleanup_pieces_rejects_non_canonical_bytes() {
    let env = pieces_envelope();
    let mut bytes = env.canonical_bytes().unwrap();
    bytes.push(0xFF);
    assert!(
        PieceTextCleanupPiecesEnvelopeV1::from_canonical_bytes(&bytes)
            .unwrap_err()
            .message()
            .contains("trailing")
    );
}

#[test]
fn piece_text_cleanup_buffers_rejects_non_canonical_bytes() {
    let env = buffers_envelope();
    let mut bytes = env.canonical_bytes().unwrap();
    bytes.push(0xFF);
    assert!(
        PieceTextCleanupBuffersEnvelopeV1::from_canonical_bytes(&bytes)
            .unwrap_err()
            .message()
            .contains("trailing")
    );
}

#[test]
fn piece_text_cleanup_pieces_empty_runs_rejected() {
    let mut env = pieces_envelope();
    env.runs.clear();
    assert!(env
        .validate_shape()
        .unwrap_err()
        .message()
        .contains("at least one run"));
}

#[test]
fn piece_text_cleanup_pieces_empty_run_removals_rejected() {
    let mut env = pieces_envelope();
    env.runs[0].removals.clear();
    assert!(env
        .validate_shape()
        .unwrap_err()
        .message()
        .contains("at least one removal"));
}

#[test]
fn piece_text_cleanup_pieces_duplicate_removal_across_runs_rejected() {
    let mut env = pieces_envelope();
    env.runs[1].removals = vec![10];
    assert!(env
        .validate_shape()
        .unwrap_err()
        .message()
        .contains("appears more than once"));
}

#[test]
fn piece_text_cleanup_pieces_non_canonical_run_order_rejected() {
    let mut env = pieces_envelope();
    env.runs.reverse();
    assert!(env
        .validate_shape()
        .unwrap_err()
        .message()
        .contains("ascending"));
}

#[test]
fn piece_text_cleanup_pieces_over_run_cap_rejected() {
    let mut env = pieces_envelope();
    env.runs = (0..(MAX_PIECE_TEXT_CLEANUP_RUNS as i64 + 1))
        .map(|i| PieceTextCleanupRunV1 {
            removals: vec![1_000_000 + i],
        })
        .collect();
    assert!(env
        .validate_shape()
        .unwrap_err()
        .message()
        .contains("exceeding cap"));
}

#[test]
fn piece_text_cleanup_pieces_over_removal_cap_rejected() {
    let mut env = pieces_envelope();
    env.runs = vec![PieceTextCleanupRunV1 {
        removals: (1..=(MAX_PIECE_TEXT_CLEANUP_PIECE_REMOVALS as i64 + 1)).collect(),
    }];
    assert!(env
        .validate_shape()
        .unwrap_err()
        .message()
        .contains("exceeding cap"));
}

#[test]
fn piece_text_cleanup_buffers_empty_envelope_rejected() {
    let mut env = buffers_envelope();
    env.buffer_removals.clear();
    assert!(env
        .validate_shape()
        .unwrap_err()
        .message()
        .contains("at least one buffer"));
}

#[test]
fn piece_text_cleanup_buffers_unsorted_or_duplicate_rejected() {
    let mut env = buffers_envelope();
    env.buffer_removals = vec![40, 30];
    assert!(env
        .validate_shape()
        .unwrap_err()
        .message()
        .contains("ascending"));

    env.buffer_removals = vec![30, 30];
    assert!(env
        .validate_shape()
        .unwrap_err()
        .message()
        .contains("ascending"));
}

#[test]
fn piece_text_cleanup_buffers_over_cap_rejected() {
    let mut env = buffers_envelope();
    env.buffer_removals = (1..=(MAX_PIECE_TEXT_CLEANUP_BUFFER_REMOVALS as i64 + 1)).collect();
    assert!(env
        .validate_shape()
        .unwrap_err()
        .message()
        .contains("exceeding cap"));
}

#[test]
fn piece_text_cleanup_pieces_entry_key_validation() {
    let env = pieces_envelope();
    let kv = env.changelog_entry_kv().unwrap();
    env.validate_entry_key(&kv.key).unwrap();

    let wrong_tag = StorageKey::PieceTextEdit {
        address: env.address.clone(),
        op_id: [0u8; 16],
    };
    assert!(matches!(
        env.validate_entry_key(&wrong_tag),
        Err(ChangelogError::KeyMismatch(_))
    ));

    let buffers_tag = StorageKey::PieceTextCleanupBuffers {
        address: env.address.clone(),
        op_id: env.op_id,
    };
    assert!(matches!(
        env.validate_entry_key(&buffers_tag),
        Err(ChangelogError::KeyMismatch(_))
    ));

    let wrong_field = StorageKey::PieceTextCleanupPieces {
        address: PieceTextAddress { row_id: env.address.row_id + 1, ..env.address.clone() },
        op_id: env.op_id,
    };
    assert!(matches!(
        env.validate_entry_key(&wrong_field),
        Err(ChangelogError::KeyMismatch(_))
    ));
}

#[test]
fn piece_text_cleanup_buffers_entry_key_validation() {
    let env = buffers_envelope();
    let kv = env.changelog_entry_kv().unwrap();
    env.validate_entry_key(&kv.key).unwrap();

    let pieces_tag = StorageKey::PieceTextCleanupPieces {
        address: env.address.clone(),
        op_id: env.op_id,
    };
    assert!(matches!(
        env.validate_entry_key(&pieces_tag),
        Err(ChangelogError::KeyMismatch(_))
    ));
}

#[test]
fn piece_text_cleanup_pieces_decode_from_entry_rejects_wrong_shape() {
    let env = pieces_envelope();
    let mut entry = pieces_entry(&env);
    entry.message.op_type = OpType::PieceTextEdit;
    assert!(PieceTextCleanupPiecesEnvelopeV1::decode_from_entry(&entry)
        .unwrap_err()
        .message()
        .contains("expected OpType::PieceTextCleanupPieces"));

    let mut entry = pieces_entry(&env);
    entry.message.tree_path = b"/other".to_vec();
    assert!(PieceTextCleanupPiecesEnvelopeV1::decode_from_entry(&entry)
        .unwrap_err()
        .message()
        .contains("tree_path"));

    let mut entry = pieces_entry(&env);
    entry
        .message
        .entries
        .push(env.changelog_entry_kv().unwrap());
    assert!(PieceTextCleanupPiecesEnvelopeV1::decode_from_entry(&entry)
        .unwrap_err()
        .message()
        .contains("exactly one"));
}

#[test]
fn piece_text_cleanup_buffers_decode_from_entry_rejects_wrong_shape() {
    let env = buffers_envelope();
    let mut entry = buffers_entry(&env);
    entry.message.op_type = OpType::PieceTextCleanupPieces;
    assert!(PieceTextCleanupBuffersEnvelopeV1::decode_from_entry(&entry)
        .unwrap_err()
        .message()
        .contains("expected OpType::PieceTextCleanupBuffers"));
}

#[test]
fn piece_text_cleanup_keys_differ_across_op_kinds() {
    let pieces = pieces_envelope();
    let buffers = buffers_envelope();
    let pieces_key = pieces.changelog_entry_kv().unwrap().key;
    let buffers_key = buffers.changelog_entry_kv().unwrap().key;
    assert_ne!(pieces_key, buffers_key);

    let edit = PieceTextEditEnvelopeV1 {
        version: PIECE_TEXT_ENVELOPE_VERSION_V1,
        op_id: [1u8; 16],
        address: address(),
        edit: PieceTextEditManifest { ops: vec![] },
    };
    let edit_key = StorageKey::PieceTextEdit {
        address: edit.address.clone(),
        op_id: edit.op_id,
    };
    assert_ne!(pieces_key, edit_key);
    assert_ne!(buffers_key, edit_key);
    assert_eq!(root_tree_path(), b"/".to_vec());
}

/// The message that a value is refused with.
fn refusal<T>(r: Result<T, ChangelogError>) -> String {
    match r {
        Ok(_) => panic!("accepted"),
        Err(e) => e.message(),
    }
}

fn pieces_of(runs: Vec<Vec<i64>>) -> PieceTextCleanupPiecesEnvelopeV1 {
    let mut envelope = pieces_envelope();
    envelope.runs = runs.into_iter().map(|removals| PieceTextCleanupRunV1 { removals }).collect();
    envelope
}

fn buffers_of(buffer_removals: Vec<i64>) -> PieceTextCleanupBuffersEnvelopeV1 {
    let mut envelope = buffers_envelope();
    envelope.buffer_removals = buffer_removals;
    envelope
}

fn address_bytes() -> Vec<u8> {
    let mut bytes = vec![8u8];
    bytes.extend(b"channels");
    bytes.push(84);
    bytes.push(12);
    bytes.extend(b"notes_pieces");
    bytes
}

#[test]
fn cleanups_have_these_bytes() {
    let mut expected = vec![1u8];
    expected.extend(address_bytes());
    expected.extend([14, 198, 1, 2, 2, 20, 22, 1, 42]);
    assert_eq!(pieces_envelope().canonical_bytes().unwrap(), expected);
    assert_eq!(
        PieceTextCleanupPiecesEnvelopeV1::from_canonical_bytes(&expected).unwrap(),
        pieces_envelope()
    );
    let mut expected = vec![1u8];
    expected.extend(address_bytes());
    expected.extend([198, 1, 2, 60, 80]);
    assert_eq!(buffers_envelope().canonical_bytes().unwrap(), expected);
    assert_eq!(
        PieceTextCleanupBuffersEnvelopeV1::from_canonical_bytes(&expected).unwrap(),
        buffers_envelope()
    );
}

#[test]
fn cleanups_of_pieces_are_refused_for_these_reasons() {
    pieces_envelope().validate_shape().unwrap();
    let mut version = pieces_envelope();
    version.version = 3;
    assert_eq!(
        refusal(version.validate_shape()),
        "unsupported PieceTextCleanupPiecesEnvelopeV1 version 3"
    );
    let mut list = pieces_envelope();
    list.list_number = 0;
    assert_eq!(
        refusal(list.validate_shape()),
        "PieceTextCleanupPiecesEnvelopeV1.list_number must be greater than 0"
    );
    let mut op = pieces_envelope();
    op.op_id = 0;
    assert_eq!(
        refusal(op.validate_shape()),
        "PieceTextCleanupPiecesEnvelopeV1.op_id must be greater than 0"
    );
    assert_eq!(
        refusal(pieces_of(vec![]).validate_shape()),
        "PieceTextCleanupPiecesEnvelopeV1 must have at least one run"
    );
    assert_eq!(
        refusal(pieces_of((1..=65).map(|i| vec![i]).collect()).validate_shape()),
        "PieceTextCleanupPiecesEnvelopeV1 has 65 runs, exceeding cap 64"
    );
    assert_eq!(
        refusal(pieces_of(vec![vec![1], vec![]]).validate_shape()),
        "PieceTextCleanupRunV1 must have at least one removal"
    );
    assert_eq!(
        refusal(pieces_of(vec![vec![1, -2]]).validate_shape()),
        "PieceTextCleanupRunV1 removal row ids must be positive, got -2"
    );
    assert_eq!(
        refusal(pieces_of(vec![vec![1, 2], vec![3, 2]]).validate_shape()),
        "PieceTextCleanupPiecesEnvelopeV1 removal row id 2 appears more than once"
    );
    assert_eq!(
        refusal(pieces_of(vec![vec![5], vec![3]]).validate_shape()),
        "PieceTextCleanupPiecesEnvelopeV1 runs must be in ascending order by first removed row id"
    );
    pieces_of(vec![(1..=256).rev().collect()]).validate_shape().unwrap();
    assert_eq!(
        refusal(pieces_of(vec![(1..=257).collect()]).validate_shape()),
        "PieceTextCleanupPiecesEnvelopeV1 removes 257 rows, exceeding cap 256"
    );
}

#[test]
fn cleanups_of_buffers_are_refused_for_these_reasons() {
    buffers_envelope().validate_shape().unwrap();
    let mut op = buffers_envelope();
    op.op_id = 0;
    assert_eq!(
        refusal(op.validate_shape()),
        "PieceTextCleanupBuffersEnvelopeV1.op_id must be greater than 0"
    );
    assert_eq!(
        refusal(buffers_of(vec![]).validate_shape()),
        "PieceTextCleanupBuffersEnvelopeV1 must remove at least one buffer"
    );
    buffers_of((1..=64).collect()).validate_shape().unwrap();
    assert_eq!(
        refusal(buffers_of((1..=65).collect()).validate_shape()),
        "PieceTextCleanupBuffersEnvelopeV1.buffer_removals has 65 entries, exceeding cap 64"
    );
    assert_eq!(
        refusal(buffers_of(vec![0, 1]).validate_shape()),
        "PieceTextCleanupBuffersEnvelopeV1.buffer_removals row ids must be positive, got 0"
    );
    assert_eq!(
        refusal(buffers_of(vec![4, 4]).validate_shape()),
        "PieceTextCleanupBuffersEnvelopeV1.buffer_removals must be strictly ascending"
    );
}

#[test]
fn keys_of_cleanups_are_refused_for_these_reasons() {
    let pieces_key = StorageKey::PieceTextCleanupPieces { address: address(), op_id: 99 };
    let buffers_key = StorageKey::PieceTextCleanupBuffers { address: address(), op_id: 99 };
    pieces_envelope().validate_entry_key(&pieces_key).unwrap();
    buffers_envelope().validate_entry_key(&buffers_key).unwrap();
    let later = StorageKey::PieceTextCleanupPieces { address: address(), op_id: 100 };
    assert_eq!(
        refusal(pieces_envelope().validate_entry_key(&later)),
        "piece-text piece-cleanup entry key does not match envelope address/op_id"
    );
    let later = StorageKey::PieceTextCleanupBuffers { address: address(), op_id: 100 };
    assert_eq!(
        refusal(buffers_envelope().validate_entry_key(&later)),
        "piece-text buffer-cleanup entry key does not match envelope address/op_id"
    );
    assert_eq!(
        refusal(pieces_envelope().validate_entry_key(&buffers_key)),
        "piece-text piece-cleanup entry key must use PTCP tag, got another key"
    );
    assert_eq!(
        refusal(buffers_envelope().validate_entry_key(&pieces_key)),
        "piece-text buffer-cleanup entry key must use PTCB tag, got another key"
    );
    let garbled = StorageKey::Malformed { raw: vec![1], reason: "too short".to_string() };
    assert_eq!(
        refusal(pieces_envelope().validate_entry_key(&garbled)),
        "failed to parse piece-text piece-cleanup entry key: too short"
    );
    assert_eq!(
        refusal(buffers_envelope().validate_entry_key(&garbled)),
        "failed to parse piece-text buffer-cleanup entry key: too short"
    );
    assert_eq!(
        pieces_envelope().validate_entry_key(&buffers_key).unwrap_err(),
        ChangelogError::KeyMismatch(KeyFault::WrongTag {
            kind: EntryKeyKind::CleanupPieces,
            found: buffers_key,
        })
    );
}

#[test]
fn undecodable_cleanups_say_why() {
    let pieces = pieces_envelope().canonical_bytes().unwrap();
    assert_eq!(
        refusal(PieceTextCleanupPiecesEnvelopeV1::from_canonical_bytes(&pieces[..pieces.len() - 1])),
        "failed to decode PieceTextCleanupPiecesEnvelopeV1: Hit the end of buffer, expected more data"
    );
    assert_eq!(
        refusal(PieceTextCleanupPiecesEnvelopeV1::from_canonical_bytes(&[1, 1, 0xff])),
        "failed to decode PieceTextCleanupPiecesEnvelopeV1: Tried to parse invalid utf-8"
    );
    let buffers = buffers_envelope().canonical_bytes().unwrap();
    assert_eq!(
        refusal(PieceTextCleanupBuffersEnvelopeV1::from_canonical_bytes(&buffers[..3])),
        "failed to decode PieceTextCleanupBuffersEnvelopeV1: Hit the end of buffer, expected more data"
    );
}
