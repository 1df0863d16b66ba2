//! Removals of users.

use changelog_core::changelog::{ChangelogError, KvData};
use changelog_core::ops::key_history::{CompositeEntry, HistoryChecks};
use changelog_core::ops::remove_user_op::{
    check_removal, retention_rows, RemoveUserChecks, RemoveUserOp, RetentionChecks,
};
use changelog_core::ops::{OpContext, OpVerifyResult, TraceStep};
use changelog_core::storage::{
    i64_to_be, BatchOp, IndexValue, OpReader, ProvenRead, ReadOp, StorageKey, StoredValue,
};

const KEY_HISTORY: &str = "_key_history";
const DELETED: u32 = 5;

fn cell(table: &str, row_id: i64, column: &str) -> StorageKey {
    StorageKey::Column { table: table.to_string(), row_id, column: column.to_string() }
}

/// A tree that holds no more than a user's key.
struct KeyReader {
    auth_key: Option<StoredValue>,
}

impl OpReader for KeyReader {
    fn read(&mut self, op: ReadOp) -> Result<ProvenRead, ChangelogError> {
        let key = cell("_users", DELETED as i64, "auth_key");
        let results = match (&op, &self.auth_key) {
            (ReadOp::Bytes(k), Some(value)) if *k == key => vec![(key, value.clone())],
            _ => vec![],
        };
        Ok(ProvenRead { results })
    }
}

fn test_auth_key() -> Vec<u8> {
    b"\"base64key\"".to_vec()
}

fn kv(table: &str, row_id: i64, column: &str, value: &[u8]) -> KvData {
    KvData { key: cell(table, row_id, column), value: value.to_vec() }
}

fn history_keys() -> Vec<StorageKey> {
    ["old_auth_key", "uid", "valid_from_change_id", "valid_to_change_id"]
        .iter()
        .map(|c| cell(KEY_HISTORY, 1, c))
        .collect()
}

fn index_put(table: &str, column: &str, value: IndexValue) -> BatchOp {
    BatchOp::Put {
        key: StorageKey::Index {
            table: table.to_string(),
            column: column.to_string(),
            value,
            row_id: 1,
        },
        value: StoredValue::RowId(1),
    }
}

fn counter_put(table: &str) -> BatchOp {
    BatchOp::Put {
        key: StorageKey::NextId { table: table.to_string() },
        value: StoredValue::Raw(i64_to_be(2)),
    }
}

fn names(names: &[&str]) -> Vec<String> {
    names.iter().map(|n| n.to_string()).collect()
}

fn user_entries(rows: &[i64]) -> Vec<KvData> {
    let mut entries = vec![];
    for row in rows {
        for column in ["auth_key", "status", "update_key"] {
            entries.push(kv("_users", *row, column, &[]));
        }
    }
    entries
}

/// A removal with all that is checked outside the library in order.
fn checks(
    auth_key: &[u8],
    valid_from: i64,
    valid_to: i64,
    existing: Vec<(i64, i64)>,
) -> RemoveUserChecks {
    RemoveUserChecks {
        parts: Ok(CompositeEntry {
            key_history: vec![
                kv(KEY_HISTORY, 0, "old_auth_key", auth_key),
                kv(KEY_HISTORY, 0, "uid", &i64_to_be(DELETED as i64)),
                kv(KEY_HISTORY, 0, "valid_from_change_id", &i64_to_be(valid_from)),
                kv(KEY_HISTORY, 0, "valid_to_change_id", &i64_to_be(valid_to)),
            ],
            retention: vec![
                kv("_retention", 0, "key", b"\"test_retention_key\""),
                kv("_retention", 0, "value", &[0xAA; 32]),
            ],
            users: user_entries(&[5]),
        }),
        user_row: Ok(("_users".to_string(), DELETED as i64)),
        user_access: Ok(()),
        user_columns: Ok(names(&["auth_key", "status", "update_key"])),
        history: HistoryChecks {
            row_id: Ok(1),
            column_keys: Ok(history_keys()),
            structure: Ok(()),
            valid_from: Ok(valid_from),
            valid_to: Ok(valid_to),
            old_auth_key: Ok(auth_key.to_vec()),
            existing_ranges: Ok(existing),
            index_puts: Ok(vec![index_put(KEY_HISTORY, "uid", IndexValue::Int(DELETED as i64))]),
            counter_put: Ok(counter_put(KEY_HISTORY)),
        },
        retention: RetentionChecks {
            columns: Ok(names(&["key", "value"])),
            next_id: Ok(1),
            column_keys: Ok(vec![cell("_retention", 1, "key"), cell("_retention", 1, "value")]),
            index_puts: Ok(vec![index_put(
                "_retention",
                "key",
                IndexValue::Text("test_retention_key".to_string()),
            )]),
            counter_put: Ok(counter_put("_retention")),
        },
    }
}

fn run(
    current_change_id: u64,
    current: &[u8],
    checks: RemoveUserChecks,
) -> Result<OpVerifyResult, ChangelogError> {
    let mut reader = KeyReader { auth_key: Some(StoredValue::Raw(current.to_vec())) };
    RemoveUserOp::extract_and_validate(&mut reader, &OpContext { current_change_id }, checks)
}

fn message(r: Result<OpVerifyResult, ChangelogError>) -> String {
    r.unwrap_err().message()
}

#[test]
fn test_remove_user_accepts_single_deleted_row() {
    let result = run(1, &test_auth_key(), checks(&test_auth_key(), 0, 5, vec![]));
    assert!(result.is_ok(), "expected Ok, got: {:?}", result.unwrap_err());
}

#[test]
fn test_remove_user_rejects_multiple_deleted_rows() {
    let mut two = checks(&test_auth_key(), 0, 5, vec![]);
    two.parts = two.parts.map(|mut parts| {
        parts.users = user_entries(&[5, 6]);
        parts
    });
    two.user_row = Err(ChangelogError::Generic(
        "remove_user: one insert must bind all columns to a single (table, row_id)".to_string(),
    ));
    let msg = message(run(1, &test_auth_key(), two));
    assert!(
        msg.contains("one insert must bind all columns to a single (table, row_id)"),
        "unexpected error: {msg}"
    );
}

#[test]
fn test_remove_user_rejects_tampered_old_auth_key() {
    let msg = message(run(1, &test_auth_key(), checks(b"\"TAMPERED_KEY\"", 0, 0, vec![])));
    assert!(msg.contains("old_auth_key does not match"), "unexpected error: {msg}");
}

#[test]
fn test_remove_user_rejects_valid_from_gap() {
    let msg = message(run(11, &test_auth_key(), checks(&test_auth_key(), 5, 10, vec![])));
    assert!(msg.contains("must be 0 for the first history entry"), "unexpected error: {msg}");
}

#[test]
fn test_remove_user_rejects_overlapping_range() {
    let msg = message(run(1, &test_auth_key(), checks(&test_auth_key(), 0, 0, vec![(0, 3)])));
    assert!(msg.contains("overlaps existing range"), "unexpected error: {msg}");
}

#[test]
fn test_remove_user_rejects_valid_from_discontinuity_after_prior_row() {
    let msg = message(run(16, &test_auth_key(), checks(&test_auth_key(), 10, 15, vec![(0, 3)])));
    assert!(msg.contains("must be 4 (previous valid_to + 1)"), "unexpected error: {msg}");
}

#[test]
fn test_remove_user_accepts_contiguous_range_after_prior_row() {
    let result = run(11, &test_auth_key(), checks(&test_auth_key(), 4, 10, vec![(0, 3)]));
    assert!(result.is_ok(), "expected Ok, got: {:?}", result.unwrap_err());
}

#[test]
fn test_remove_user_key_hash_matching_stored_hashes_accepted() {
    let hash = vec![0x5A; 32];
    let result = run(6, &hash, checks(&hash, 0, 5, vec![]));
    assert!(result.is_ok(), "expected Ok, got: {:?}", result.unwrap_err());
}

#[test]
fn test_remove_user_key_hash_mismatched_stored_hashes_rejected() {
    let msg = message(run(6, &[0x5B; 32], checks(&[0x5A; 32], 0, 5, vec![])));
    assert!(msg.contains("old_auth_key does not match"), "unexpected error: {msg}");
}

#[test]
fn test_remove_user_key_hash_no_hashed_values_required() {
    let hash = vec![0x5A; 32];
    assert_eq!(hash.len(), 32);
    let result = run(11, &hash, checks(&hash, 4, 10, vec![(0, 3)]));
    assert!(result.is_ok(), "expected Ok, got: {:?}", result.unwrap_err());
}

#[test]
fn test_remove_user_write_uses_authoritative_valid_to() {
    let result = run(9, &test_auth_key(), checks(&test_auth_key(), 0, 5, vec![])).unwrap();
    let TraceStep::Write(ops) = &result.write_steps[0];
    let valid_to_key = cell(KEY_HISTORY, 1, "valid_to_change_id");
    let valid_to_op = ops
        .iter()
        .find(|op| *op.key() == valid_to_key)
        .expect("valid_to_change_id batch op not found");
    match valid_to_op {
        BatchOp::Put { value, .. } => assert_eq!(
            *value,
            StoredValue::Int(8),
            "valid_to_change_id should use server-authoritative value 8"
        ),
        other => panic!("expected Put for valid_to_change_id, got {:?}", other),
    }
}

#[test]
fn removal_writes_in_order() {
    let result = run(9, &test_auth_key(), checks(&test_auth_key(), 0, 5, vec![])).unwrap();
    assert_eq!(result.write_steps.len(), 1);
    let TraceStep::Write(ops) = &result.write_steps[0];
    let keys: Vec<StorageKey> = ops.iter().map(|op| op.key().clone()).collect();
    let mut expected: Vec<StorageKey> =
        user_entries(&[5]).into_iter().map(|kv| kv.key).collect();
    expected.extend(history_keys());
    expected.push(
        index_put(KEY_HISTORY, "uid", IndexValue::Int(DELETED as i64)).key().clone(),
    );
    expected.push(counter_put(KEY_HISTORY).key().clone());
    expected.push(cell("_retention", 1, "key"));
    expected.push(cell("_retention", 1, "value"));
    expected.push(
        index_put("_retention", "key", IndexValue::Text("test_retention_key".to_string()))
            .key()
            .clone(),
    );
    expected.push(counter_put("_retention").key().clone());
    assert_eq!(keys, expected);
    assert!(ops[..3].iter().all(|op| matches!(op, BatchOp::Delete { .. })));
}

#[test]
fn removal_needs_all_columns_of_the_user() {
    let mut short = checks(&test_auth_key(), 0, 5, vec![]);
    short.user_columns = Ok(names(&["auth_key", "name", "status", "update_key"]));
    assert_eq!(
        message(run(1, &test_auth_key(), short)),
        "remove_user: row 5 is missing columns [\"name\"] — deletes must cover all columns"
    );
    let mut shorter = checks(&test_auth_key(), 0, 5, vec![]);
    shorter.user_columns = Ok(names(&["status", "zip", "update_key", "a\"b", "auth_key"]));
    assert_eq!(
        message(run(1, &test_auth_key(), shorter)),
        "remove_user: row 5 is missing columns [\"a\\\"b\", \"zip\"] — deletes must cover all columns"
    );
}

#[test]
fn retained_rows_need_all_columns() {
    let mut short = checks(&test_auth_key(), 0, 5, vec![]);
    short.retention.columns = Ok(names(&["key", "kind", "value"]));
    let rows = short.parts.as_mut().unwrap();
    rows.retention.push(kv("_retention", 0, "key", b"\"again\""));
    assert_eq!(
        message(run(1, &test_auth_key(), short)),
        "remove_user: _retention insert missing columns [\"kind\"]"
    );
    let mut odd = checks(&test_auth_key(), 0, 5, vec![]);
    odd.parts.as_mut().unwrap().retention.push(kv("_retention", 0, "key", b"\"again\""));
    assert_eq!(
        message(run(1, &test_auth_key(), odd)),
        "remove_user: _retention entry count 3 is not a multiple of col_count=2"
    );
    let mut none = checks(&test_auth_key(), 0, 5, vec![]);
    none.retention.columns = Ok(vec![]);
    for kv in none.parts.as_mut().unwrap().retention.iter_mut() {
        kv.key = StorageKey::Other(vec![1]);
    }
    assert_eq!(
        message(run(1, &test_auth_key(), none)),
        "remove_user: _retention has no schema columns"
    );
}

#[test]
fn removal_needs_the_table_of_users() {
    let mut elsewhere = checks(&test_auth_key(), 0, 5, vec![]);
    elsewhere.user_row = Ok(("docs".to_string(), 5));
    assert_eq!(
        message(run(1, &test_auth_key(), elsewhere)),
        "remove_user: user columns target table 'docs', expected '_users'"
    );
}

#[test]
fn removal_needs_history_and_users() {
    let mut no_history = checks(&test_auth_key(), 0, 5, vec![]);
    no_history.parts = no_history.parts.map(|mut parts| {
        parts.key_history = vec![];
        parts
    });
    let msg = message(run(1, &test_auth_key(), no_history));
    assert!(msg.contains("_key_history entries must not be empty"), "{msg}");
    let mut no_users = checks(&test_auth_key(), 0, 5, vec![]);
    no_users.parts = no_users.parts.map(|mut parts| {
        parts.users = vec![];
        parts
    });
    let msg = message(run(1, &test_auth_key(), no_users));
    assert!(msg.contains("_users entries must not be empty"), "{msg}");
}

#[test]
fn removal_without_retention_writes_none() {
    let mut without = checks(&test_auth_key(), 0, 5, vec![]);
    without.parts = without.parts.map(|mut parts| {
        parts.retention = vec![];
        parts
    });
    let result = run(9, &test_auth_key(), without).unwrap();
    let TraceStep::Write(ops) = &result.write_steps[0];
    assert_eq!(ops.len(), 9);
}

#[test]
fn removal_needs_a_current_key() {
    let mut reader = KeyReader { auth_key: None };
    let msg = message(RemoveUserOp::extract_and_validate(
        &mut reader,
        &OpContext { current_change_id: 1 },
        checks(&test_auth_key(), 0, 5, vec![]),
    ));
    assert!(msg.contains("_users.auth_key not found"), "{msg}");
}

#[test]
fn a_range_without_end_is_refused_as_an_overlap() {
    let open = (0, i64::MAX);
    assert_eq!(
        message(run(6, &test_auth_key(), checks(&test_auth_key(), 0, 5, vec![open]))),
        "remove_user: new _key_history range [0, 5] overlaps existing range [0, 9223372036854775807] for uid=5"
    );
    let mut denied = checks(&test_auth_key(), 0, 5, vec![(9, i64::MAX)]);
    denied.user_access = Err(ChangelogError::Generic("denied".to_string()));
    assert_eq!(message(run(6, &test_auth_key(), denied)), "denied");
}

#[test]
fn a_column_named_twice_counts_once() {
    let mut twice = checks(&test_auth_key(), 0, 5, vec![]);
    twice.retention.columns = Ok(names(&["key", "value", "key"]));
    assert!(run(1, &test_auth_key(), twice).is_ok());
    let mut odd = checks(&test_auth_key(), 0, 5, vec![]);
    odd.retention.columns = Ok(names(&["value", "key", "key"]));
    odd.parts = odd.parts.map(|mut parts| {
        parts.retention.push(kv("_retention", 0, "value", &[1]));
        parts
    });
    assert_eq!(
        message(run(1, &test_auth_key(), odd)),
        "remove_user: _retention entry count 3 is not a multiple of col_count=2"
    );
}

#[test]
fn rows_kept_are_as_many_as_full_sets_of_columns() {
    assert_eq!(retention_rows(6, 2), 3);
    assert_eq!(retention_rows(0, 4), 0);
    assert_eq!(retention_rows(7, 7), 1);
}

#[test]
fn a_removal_tells_who_goes_and_until_when() {
    let removal = check_removal(
        Ok(("_users".to_string(), DELETED as i64)),
        Ok(()),
        Ok(names(&["auth_key", "status", "update_key"])),
        &user_entries(&[5]),
        9,
    )
    .unwrap();
    assert_eq!((removal.uid, removal.valid_to), (5, 8));
    let r = check_removal(
        Ok(("_users".to_string(), DELETED as i64)),
        Ok(()),
        Ok(names(&["auth_key", "status"])),
        &user_entries(&[5]),
        9,
    );
    assert_eq!(
        r.map(|removal| removal.uid).unwrap_err().message(),
        "remove_user: row 5 is missing columns [] \u{2014} deletes must cover all columns"
    );
}
