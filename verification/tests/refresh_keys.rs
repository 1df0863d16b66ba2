//! Replacements of a user's keys.

use changelog_core::changelog::{
    root_tree_path, ChangelogEntry, ChangelogError, KvData, LogMessage,
};
use changelog_core::faults::OpType;
use changelog_core::ops::key_history::{CompositeEntry, HistoryChecks};
use changelog_core::ops::refresh_keys_op::{RefreshKeysChecks, RefreshKeysOp};
use changelog_core::ops::{OpVerifyResult, TraceStep};
use changelog_core::storage::{
    i64_to_be, BatchOp, IndexValue, OpReader, ProvenRead, ReadOp, StorageKey, StoredValue,
};

const KEY_HISTORY: &str = "_key_history";
const UID: u32 = 1;

fn cell(table: &str, row_id: i64, column: &str) -> StorageKey {
    StorageKey::Column { table: table.to_string(), row_id, column: column.to_string() }
}

/// A tree that holds no more than a user's key.
struct KeyReader {
    uid: u32,
    auth_key: Option<Vec<u8>>,
}

impl OpReader for KeyReader {
    fn read(&mut self, op: ReadOp) -> Result<ProvenRead, ChangelogError> {
        let key = cell("_users", self.uid as i64, "auth_key");
        let results = match (&op, &self.auth_key) {
            (ReadOp::Bytes(k), Some(bytes)) if *k == key => {
                vec![(key, StoredValue::Raw(bytes.clone()))]
            }
            _ => vec![],
        };
        Ok(ProvenRead { results })
    }
}

fn test_auth_key() -> Vec<u8> {
    b"\"base64key\"".to_vec()
}

fn kv(table: &str, row_id: i64, column: &str, value: &[u8]) -> KvData {
    KvData { key: cell(table, row_id, column), value: value.to_vec() }
}

fn history_kvs(auth_key: &[u8], valid_from: i64, valid_to: i64) -> Vec<KvData> {
    vec![
        kv(KEY_HISTORY, 0, "old_auth_key", auth_key),
        kv(KEY_HISTORY, 0, "uid", &i64_to_be(UID as i64)),
        kv(KEY_HISTORY, 0, "valid_from_change_id", &i64_to_be(valid_from)),
        kv(KEY_HISTORY, 0, "valid_to_change_id", &i64_to_be(valid_to)),
    ]
}

fn history_keys(row_id: i64) -> Vec<StorageKey> {
    ["old_auth_key", "uid", "valid_from_change_id", "valid_to_change_id"]
        .iter()
        .map(|c| cell(KEY_HISTORY, row_id, c))
        .collect()
}

fn index_put(row_id: i64) -> BatchOp {
    BatchOp::Put {
        key: StorageKey::Index {
            table: KEY_HISTORY.to_string(),
            column: "uid".to_string(),
            value: IndexValue::Int(UID as i64),
            row_id,
        },
        value: StoredValue::RowId(row_id),
    }
}

fn counter_put(next: i64) -> BatchOp {
    BatchOp::Put {
        key: StorageKey::NextId { table: KEY_HISTORY.to_string() },
        value: StoredValue::Raw(i64_to_be(next)),
    }
}

fn entry(sig_ref: u32, entries: Vec<KvData>) -> ChangelogEntry {
    ChangelogEntry {
        timestamp: 1000,
        uid: UID,
        parent_change: 0,
        message: LogMessage { op_type: OpType::RefreshKeys, tree_path: root_tree_path(), entries },
        sig_ref,
        parent_clc: [0u8; 32],
        signature: vec![],
    }
}

/// A refresh of one of the user's columns, with all that is checked outside the
/// library in order.
fn checks(
    auth_key: &[u8],
    valid_from: i64,
    valid_to: i64,
    existing: Vec<(i64, i64)>,
) -> RefreshKeysChecks {
    let row_id = existing.len() as i64 + 1;
    RefreshKeysChecks {
        sorted: Ok(()),
        parts: Ok(CompositeEntry {
            key_history: history_kvs(auth_key, valid_from, valid_to),
            retention: vec![],
            users: vec![kv("_users", UID as i64, "update_key", &[0xAA; 32])],
        }),
        user_access: Ok(()),
        history: HistoryChecks {
            row_id: Ok(row_id),
            column_keys: Ok(history_keys(row_id)),
            structure: Ok(()),
            valid_from: Ok(valid_from),
            valid_to: Ok(valid_to),
            old_auth_key: Ok(auth_key.to_vec()),
            existing_ranges: Ok(existing),
            index_puts: Ok(vec![index_put(row_id)]),
            counter_put: Ok(counter_put(row_id + 1)),
        },
        users_table: Ok("_users".to_string()),
    }
}

fn run(sig_ref: u32, current: &[u8], checks: RefreshKeysChecks) -> Result<OpVerifyResult, ChangelogError> {
    let mut reader = KeyReader { uid: UID, auth_key: Some(current.to_vec()) };
    RefreshKeysOp::extract_and_validate(&entry(sig_ref, vec![]), &mut reader, checks)
}

fn message(r: Result<OpVerifyResult, ChangelogError>) -> String {
    r.unwrap_err().message()
}

#[test]
fn test_provisional_user_allowed_for_refresh_keys() {
    assert!(run(0, &test_auth_key(), checks(&test_auth_key(), 0, 0, vec![])).is_ok());
}

#[test]
fn test_non_provisional_user_allowed_for_refresh_keys() {
    assert!(run(0, &test_auth_key(), checks(&test_auth_key(), 0, 0, vec![])).is_ok());
}

#[test]
fn test_kh_correct_entry_accepted() {
    let result = run(0, &test_auth_key(), checks(&test_auth_key(), 0, 0, vec![])).unwrap();
    let TraceStep::Write(ops) = &result.write_steps[0];
    let mut expected: Vec<BatchOp> = history_keys(1)
        .into_iter()
        .zip(history_kvs(&test_auth_key(), 0, 0))
        .map(|(key, kv)| BatchOp::Put { key, value: StoredValue::Raw(kv.value) })
        .collect();
    expected.push(BatchOp::Put {
        key: cell("_users", UID as i64, "update_key"),
        value: StoredValue::Raw(vec![0xAA; 32]),
    });
    expected.push(index_put(1));
    expected.push(counter_put(2));
    assert_eq!(*ops, expected);
}

#[test]
fn test_kh_second_rotation_accepted() {
    let result = run(8, &test_auth_key(), checks(&test_auth_key(), 1, 8, vec![(0, 0)]));
    assert!(result.is_ok(), "expected ok, got: {:?}", result.err());
}

#[test]
fn test_kh_gap_after_previous_range_rejected() {
    let err = run(8, &test_auth_key(), checks(&test_auth_key(), 5, 8, vec![(0, 0)]));
    assert!(err.is_err(), "gap in key history should be rejected");
}

#[test]
fn test_kh_old_auth_key_tampered_rejected() {
    let msg = message(run(0, &test_auth_key(), checks(b"\"wrong_key\"", 0, 0, vec![])));
    assert!(msg.contains("old_auth_key does not match"), "unexpected error: {msg}");
}

#[test]
fn test_kh_valid_to_mismatch_rejected() {
    let msg = message(run(0, &test_auth_key(), checks(&test_auth_key(), 0, 5, vec![])));
    assert!(
        msg.contains("valid_to_change_id=5") && msg.contains("sig_ref=0"),
        "unexpected error: {msg}"
    );
}

#[test]
fn test_kh_valid_from_greater_than_valid_to_rejected() {
    let msg = message(run(5, &test_auth_key(), checks(&test_auth_key(), 10, 5, vec![])));
    assert!(
        msg.contains("valid_from_change_id=10") && msg.contains("must be <="),
        "unexpected error: {msg}"
    );
}

#[test]
fn test_kh_range_overlap_rejected() {
    let msg = message(run(5, &test_auth_key(), checks(&test_auth_key(), 0, 5, vec![(3, 7)])));
    assert!(msg.contains("overlaps existing range"), "unexpected error: {msg}");
}

#[test]
fn test_kh_other_uid_rows_do_not_block() {
    let result = run(0, &test_auth_key(), checks(&test_auth_key(), 0, 0, vec![]));
    assert!(result.is_ok(), "expected ok, got: {:?}", result.err());
}

#[test]
fn test_kh_first_rotation_nonzero_valid_from_rejected() {
    let msg = message(run(5, &test_auth_key(), checks(&test_auth_key(), 3, 5, vec![])));
    assert!(
        msg.contains("must be 0") && msg.contains("first rotation"),
        "unexpected error: {msg}"
    );
}

#[test]
fn test_refresh_keys_key_hash_matching_stored_hashes_accepted() {
    let hash = vec![0x5A; 32];
    let result = run(0, &hash, checks(&hash, 0, 0, vec![]));
    assert!(result.is_ok(), "expected ok, got: {:?}", result.err());
}

#[test]
fn test_refresh_keys_key_hash_mismatched_stored_hashes_rejected() {
    let msg = message(run(0, &[0x5B; 32], checks(&[0x5A; 32], 0, 0, vec![])));
    assert!(msg.contains("old_auth_key does not match"), "unexpected error: {msg}");
}

#[test]
fn test_refresh_keys_key_hash_no_hashed_values_required() {
    let hash = vec![0x5A; 32];
    let result = run(8, &hash, checks(&hash, 1, 8, vec![(0, 0)]));
    assert!(result.is_ok(), "expected ok, got: {:?}", result.err());
}

#[test]
fn refresh_needs_a_current_key() {
    let mut reader = KeyReader { uid: UID, auth_key: None };
    let msg = message(RefreshKeysOp::extract_and_validate(
        &entry(0, vec![]),
        &mut reader,
        checks(&test_auth_key(), 0, 0, vec![]),
    ));
    assert!(msg.contains("_users.auth_key not found for uid=1"), "unexpected error: {msg}");
}

#[test]
fn refresh_rejects_parts_that_do_not_belong() {
    let mut with_retention = checks(&test_auth_key(), 0, 0, vec![]);
    with_retention.parts = Ok(CompositeEntry {
        key_history: history_kvs(&test_auth_key(), 0, 0),
        retention: vec![kv("_retention", 0, "uid", &[1])],
        users: vec![kv("_users", 1, "status", &[1])],
    });
    let msg = message(run(0, &test_auth_key(), with_retention));
    assert!(msg.contains("unexpected _retention entries"), "{msg}");

    let mut no_history = checks(&test_auth_key(), 0, 0, vec![]);
    no_history.parts = Ok(CompositeEntry {
        key_history: vec![],
        retention: vec![],
        users: vec![kv("_users", 1, "status", &[1])],
    });
    let msg = message(run(0, &test_auth_key(), no_history));
    assert!(msg.contains("_key_history entries must not be empty"), "{msg}");

    let mut no_users = checks(&test_auth_key(), 0, 0, vec![]);
    no_users.parts = Ok(CompositeEntry {
        key_history: history_kvs(&test_auth_key(), 0, 0),
        retention: vec![],
        users: vec![],
    });
    let msg = message(run(0, &test_auth_key(), no_users));
    assert!(msg.contains("_users entries must not be empty"), "{msg}");
}

#[test]
fn refresh_changes_only_the_columns_for_keys() {
    let mut other = checks(&test_auth_key(), 0, 0, vec![]);
    other.parts = Ok(CompositeEntry {
        key_history: history_kvs(&test_auth_key(), 0, 0),
        retention: vec![],
        users: vec![kv("_users", 1, "auth_key", &[1]), kv("_users", 1, "name", &[1])],
    });
    let msg = message(run(0, &test_auth_key(), other));
    assert!(msg.contains("column 'name' is not allowed"), "{msg}");

    let mut elsewhere = checks(&test_auth_key(), 0, 0, vec![]);
    elsewhere.users_table = Ok("docs".to_string());
    let msg = message(run(0, &test_auth_key(), elsewhere));
    assert!(msg.contains("must target _users table, got 'docs'"), "{msg}");
}

#[test]
fn refresh_fails_as_the_first_failing_check_does() {
    let mut both = checks(&test_auth_key(), 0, 5, vec![]);
    both.user_access = Err(ChangelogError::Generic("no access".to_string()));
    both.history.structure = Err(ChangelogError::Generic("no row".to_string()));
    assert_eq!(message(run(0, &test_auth_key(), both)), "no access");
}

#[test]
fn refreshes_are_refused_for_these_reasons() {
    let key = test_auth_key();
    let refusal = |sig_ref: u32, range: (i64, i64), existing: Vec<(i64, i64)>| {
        message(run(sig_ref, &key, checks(&key, range.0, range.1, existing)))
    };
    assert_eq!(
        refusal(4, (0, 5), vec![]),
        "refresh_keys: _key_history.valid_to_change_id=5 does not match entry.sig_ref=4"
    );
    assert_eq!(
        refusal(5, (6, 5), vec![]),
        "refresh_keys: _key_history.valid_from_change_id=6 must be <= valid_to_change_id=5"
    );
    assert_eq!(
        refusal(5, (0, 5), vec![(0, 2), (3, 7)]),
        "refresh_keys: new _key_history range [0, 5] overlaps existing range [0, 2] for uid=1"
    );
    assert_eq!(
        refusal(9, (5, 9), vec![(0, 2), (3, 3)]),
        "refresh_keys: _key_history.valid_from_change_id=5 must be 4 (previous valid_to + 1) for uid=1"
    );
    assert_eq!(
        refusal(9, (5, 9), vec![]),
        "refresh_keys: _key_history.valid_from_change_id=5 must be 0 for the first rotation of uid=1"
    );
    assert_eq!(
        message(run(9, b"other", checks(&key, 0, 9, vec![]))),
        "refresh_keys: _key_history.old_auth_key does not match current _users.auth_key for uid=1"
    );
    let mut other = checks(&key, 0, 0, vec![]);
    other.parts.as_mut().unwrap().users.push(kv("_users", UID as i64, "name", &[1]));
    assert_eq!(
        message(run(0, &key, other)),
        "refresh_keys: column 'name' is not allowed (only [\"update_key\", \"auth_key\", \"status\"])"
    );
}

#[test]
fn ranges_of_keys_continue_each_other() {
    let key = test_auth_key();
    let mut ranges: Vec<(i64, i64)> = vec![];
    for (sig_ref, range) in [(3u32, (0, 3)), (4, (4, 4)), (9, (5, 9))] {
        assert!(run(sig_ref, &key, checks(&key, range.0, range.1, ranges.clone())).is_ok());
        assert!(run(sig_ref, &key, checks(&key, range.0 + 1, range.1 + 1, ranges.clone())).is_err());
        ranges.push(range);
    }
}

#[test]
fn refresh_names_the_first_other_column_by_name() {
    let mut other = checks(&test_auth_key(), 0, 0, vec![]);
    let users = &mut other.parts.as_mut().unwrap().users;
    users.push(kv("_users", UID as i64, "zip", &[1]));
    users.push(kv("_users", UID as i64 + 1, "name", &[1]));
    let msg = message(run(0, &test_auth_key(), other));
    assert!(msg.contains("column 'name' is not allowed"), "{msg}");
}

#[test]
fn an_endless_range_is_no_gap() {
    assert_eq!(
        message(run(5, &test_auth_key(), checks(&test_auth_key(), 0, 5, vec![(3, i64::MAX)]))),
        "refresh_keys: new _key_history range [0, 5] overlaps existing range [3, 9223372036854775807] for uid=1"
    );
    let mut unsorted = checks(&test_auth_key(), 0, 5, vec![(9, i64::MAX)]);
    unsorted.sorted = Err(ChangelogError::Generic("not sorted".to_string()));
    assert_eq!(message(run(5, &test_auth_key(), unsorted)), "not sorted");
}
