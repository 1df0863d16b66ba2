//! Updates of rows.

use std::cell::RefCell;

use changelog_core::changelog::{
    root_tree_path, ChangelogEntry, ChangelogError, KvData, LogMessage,
};
use changelog_core::faults::OpType;
use changelog_core::ops::update_op::{IndexOutcome, UpdateChecks, UpdateOp, UpdateOutcomes};
use changelog_core::ops::{OpVerifyResult, TraceStep};
use changelog_core::storage::{
    i64_from_be, i64_to_be, BatchOp, IndexValue, OpReader, ProvenRead, ReadOp, StorageKey,
    StoredValue,
};

fn cell(table: &str, row_id: i64, column: &str) -> StorageKey {
    StorageKey::Column { table: table.to_string(), row_id, column: column.to_string() }
}

fn kv(key: StorageKey, value: Vec<u8>) -> KvData {
    KvData { key, value }
}

fn names(names: &[&str]) -> Vec<String> {
    names.iter().map(|n| n.to_string()).collect()
}

fn outside(message: &str) -> ChangelogError {
    ChangelogError::Generic(message.to_string())
}

/// A table with its rows, and a rule that compares one column with the author.
struct Space {
    table: &'static str,
    columns: Vec<String>,
    list_columns: Vec<String>,
    piece_text_columns: Vec<String>,
    indexed_columns: Vec<String>,
    rule: Option<&'static str>,
    cells: Vec<(StorageKey, StoredValue)>,
    reads: RefCell<Vec<StorageKey>>,
}

impl OpReader for &Space {
    fn read(&mut self, op: ReadOp) -> Result<ProvenRead, ChangelogError> {
        let ReadOp::Bytes(key) = op else {
            return Err(outside("unexpected read"));
        };
        let results = self.cells.iter().filter(|(k, _)| *k == key).cloned().collect();
        self.reads.borrow_mut().push(key);
        Ok(ProvenRead { results })
    }
}

fn space(table: &'static str, columns: &[&str]) -> Space {
    Space {
        table,
        columns: names(columns),
        list_columns: vec![],
        piece_text_columns: vec![],
        indexed_columns: vec![],
        rule: None,
        cells: vec![],
        reads: RefCell::new(vec![]),
    }
}

impl Space {
    fn holding(mut self, row_id: i64, column: &str, value: StoredValue) -> Space {
        self.cells.push((cell(self.table, row_id, column), value));
        self
    }

    fn indexed(mut self, columns: &[&str]) -> Space {
        self.indexed_columns = names(columns);
        self
    }

    fn ruled(mut self, column: &'static str) -> Space {
        self.rule = Some(column);
        self
    }

    fn checks(&self) -> UpdateChecks {
        UpdateChecks {
            max_entries: Ok(()),
            sorted: Ok(()),
            user_access: Ok(()),
            column_entries: Ok(()),
            table: Ok(self.table.to_string()),
            not_internal: Ok(()),
            columns: Ok(self.columns.clone()),
            list_columns: Ok(self.list_columns.clone()),
            piece_text_columns: Ok(self.piece_text_columns.clone()),
            acl_columns: Ok(self.rule.map(|c| vec![c.to_string()])),
            indexed_columns: Ok(self.indexed_columns.clone()),
        }
    }

    fn index_key(&self, column: &str, value: i64, row_id: i64) -> StorageKey {
        StorageKey::Index {
            table: self.table.to_string(),
            column: column.to_string(),
            value: IndexValue::Int(value),
            row_id,
        }
    }

    fn update(&self, uid: u32, entries: Vec<KvData>) -> Result<OpVerifyResult, ChangelogError> {
        self.update_with(uid, entries, self.checks())
    }

    fn update_with(
        &self,
        uid: u32,
        entries: Vec<KvData>,
        checks: UpdateChecks,
    ) -> Result<OpVerifyResult, ChangelogError> {
        let entry = ChangelogEntry {
            timestamp: 1000,
            uid,
            parent_change: 0,
            message: LogMessage {
                op_type: OpType::Update,
                tree_path: root_tree_path(),
                entries: entries.clone(),
            },
            sig_ref: 0,
            parent_clc: [0u8; 32],
            signature: vec![],
        };
        let mut reader = self;
        let plan = UpdateOp::plan(&entry, &mut reader, checks)?;
        let existing = plan
            .existing()
            .iter()
            .map(|row| {
                let allowed = row
                    .values
                    .iter()
                    .any(|(_, value)| *value == StoredValue::Int(uid as i64));
                if allowed {
                    Ok(())
                } else {
                    Err(outside("ACL denied: update existing"))
                }
            })
            .collect();
        let touched = plan
            .touched()
            .iter()
            .map(|row| {
                let key = cell(self.table, *row, self.rule.unwrap());
                let allowed = entries
                    .iter()
                    .any(|e| e.key == key && i64_from_be(&e.value) == uid as i64);
                if allowed {
                    Ok(())
                } else {
                    Err(outside("ACL denied: update new"))
                }
            })
            .collect();
        let index = plan
            .index_changes()
            .iter()
            .map(|change| IndexOutcome {
                delete: change.old_value.as_ref().map(|old| match old {
                    StoredValue::Int(i) => Ok(BatchOp::Delete {
                        key: self.index_key(&change.column, *i, change.row_id),
                    }),
                    _ => Err(outside("cannot index")),
                }),
                put: Ok(BatchOp::Put {
                    key: self.index_key(
                        &change.column,
                        i64_from_be(&change.new_value),
                        change.row_id,
                    ),
                    value: StoredValue::RowId(change.row_id),
                }),
            })
            .collect();
        UpdateOp::extract_and_validate(plan, UpdateOutcomes { existing, touched, index })
    }

    fn reads(&self) -> Vec<StorageKey> {
        self.reads.borrow().clone()
    }
}

fn table_t() -> Space {
    space("t", &["age", "name"])
}

fn posts() -> Space {
    space("posts", &["author_id", "title"])
}

fn present() -> StoredValue {
    StoredValue::Raw(vec![1])
}

fn ops(result: &OpVerifyResult) -> &Vec<BatchOp> {
    let TraceStep::Write(ops) = &result.write_steps[0];
    ops
}

fn message(r: Result<OpVerifyResult, ChangelogError>) -> String {
    r.unwrap_err().message()
}

#[test]
fn test_update_op_key_exact_match() {
    let s = table_t().holding(5, "name", present());
    assert!(s.update(1, vec![kv(cell("t", 5, "name"), vec![0u8; 32])]).is_ok());
}

#[test]
fn test_update_op_returns_correct_result_multi_column() {
    let s = table_t().holding(5, "age", present());
    let result = s
        .update(
            42,
            vec![kv(cell("t", 5, "age"), vec![1u8; 32]), kv(cell("t", 5, "name"), vec![2u8; 32])],
        )
        .unwrap();
    assert_eq!(result.write_steps.len(), 1);
    assert_eq!(ops(&result).len(), 2);
}

#[test]
fn test_update_op_requires_existing_user_row() {
    let s = table_t().holding(5, "name", present());
    let entries = vec![kv(cell("t", 5, "name"), vec![0u8; 32])];
    assert!(s.update(42, entries.clone()).is_ok());
    let mut checks = s.checks();
    checks.user_access = Err(outside("update: uid 42 not found in users table"));
    let msg = message(s.update_with(42, entries, checks));
    assert!(msg.contains("not found in users table"), "unexpected error: {msg}");
}

#[test]
fn test_update_op_rejects_missing_row_via_representative_column() {
    let s = table_t();
    let msg = message(s.update(1, vec![kv(cell("t", 5, "name"), vec![0u8; 32])]));
    assert!(
        msg.contains("does not exist") && msg.contains("planned old column reads"),
        "unexpected error: {msg}"
    );
    assert_eq!(s.reads(), vec![cell("t", 5, "name")]);
}

#[test]
fn test_update_op_rejects_unknown_column() {
    let s = table_t().holding(5, "name", present());
    let msg = message(s.update(1, vec![kv(cell("t", 5, "nonexistent"), vec![0u8; 32])]));
    assert!(msg.contains("does not exist in schema"), "unexpected error: {msg}");
}

#[test]
fn test_update_op_rejects_reserved_table() {
    let s = space("_users", &["status"]).holding(5, "status", present());
    let mut checks = s.checks();
    checks.not_internal = Err(outside("update: table '_users' is reserved"));
    let msg =
        message(s.update_with(1, vec![kv(cell("_users", 5, "status"), vec![0u8; 32])], checks));
    assert!(msg.contains("reserved"), "unexpected error: {msg}");
    assert!(msg.contains("_users"), "unexpected error: {msg}");
}

#[test]
fn test_update_op_rejects_piece_text_column() {
    let mut s = space("docs", &["body"]);
    s.piece_text_columns = names(&["body"]);
    let msg = message(s.update(1, vec![kv(cell("docs", 1, "body"), vec![0u8; 32])]));
    assert!(msg.contains("PieceText column"), "unexpected error: {msg}");
    assert!(msg.contains("body"), "unexpected error: {msg}");
}

#[test]
fn test_update_op_rejects_mixed_tables() {
    let s = space("a", &["name"]);
    let mut checks = s.checks();
    checks.table = Err(outside("update: all column_keys must refer to the same table"));
    let msg = message(s.update_with(
        1,
        vec![kv(cell("a", 5, "name"), vec![1u8; 32]), kv(cell("b", 5, "name"), vec![2u8; 32])],
        checks,
    ));
    assert!(
        msg.contains("all column_keys must refer to the same table"),
        "unexpected error: {msg}"
    );
}

#[test]
fn test_update_op_emits_put_for_short_values() {
    let col = cell("t", 5, "name");
    let short_value = b"\"Ada\"".to_vec();
    let s = table_t().holding(5, "name", present());
    let result = s.update(1, vec![kv(col.clone(), short_value.clone())]).unwrap();
    assert_eq!(ops(&result).len(), 1);
    match &ops(&result)[0] {
        BatchOp::Put { key, value } => {
            assert_eq!(key, &col);
            assert_eq!(value, &StoredValue::Raw(short_value));
        }
        other => panic!("Expected Put for short value, got: {other:?}"),
    }
}

#[test]
fn test_update_nonindexed_column_on_indexed_table_skips_old_index_reads() {
    let s = table_t().indexed(&["age"]).holding(5, "name", present());
    let result = s.update(1, vec![kv(cell("t", 5, "name"), vec![7u8; 32])]).unwrap();
    assert_eq!(s.reads(), vec![cell("t", 5, "name")]);
    assert_eq!(ops(&result).len(), 1);
}

#[test]
fn test_update_indexed_column_uses_old_indexed_value_for_presence() {
    let s = table_t().indexed(&["age"]).holding(5, "age", StoredValue::Int(25));
    let result = s.update(1, vec![kv(cell("t", 5, "age"), i64_to_be(30))]).unwrap();
    assert_eq!(s.reads(), vec![cell("t", 5, "age")]);
    assert_eq!(ops(&result).len(), 3);
    assert_eq!(ops(&result)[1], BatchOp::Delete { key: s.index_key("age", 25, 5) });
    assert_eq!(*ops(&result)[2].key(), s.index_key("age", 30, 5));
}

#[test]
fn test_update_multirow_plans_presence_independently() {
    let s = table_t()
        .indexed(&["age"])
        .holding(1, "age", StoredValue::Int(25))
        .holding(2, "name", present());
    let result = s
        .update(
            1,
            vec![kv(cell("t", 1, "age"), i64_to_be(30)), kv(cell("t", 2, "name"), vec![8u8; 32])],
        )
        .unwrap();
    assert_eq!(s.reads(), vec![cell("t", 1, "age"), cell("t", 2, "name")]);
    assert_eq!(ops(&result).len(), 4);
}

#[test]
fn test_update_acl_denies_unauthorized_update() {
    let s = posts().ruled("author_id").holding(5, "author_id", StoredValue::Int(42));
    let msg = message(s.update(99, vec![kv(cell("posts", 5, "title"), vec![0u8; 32])]));
    assert!(msg.contains("ACL denied: update existing"), "unexpected error: {msg}");
}

#[test]
fn test_update_acl_allows_owner_update_non_acl_column() {
    let s = posts().ruled("author_id").holding(5, "author_id", StoredValue::Int(42));
    let result = s.update(42, vec![kv(cell("posts", 5, "title"), vec![0u8; 32])]);
    assert!(result.is_ok(), "expected Ok, got: {:?}", result.unwrap_err());
    assert_eq!(s.reads(), vec![cell("posts", 5, "author_id")]);
}

#[test]
fn test_update_acl_and_index_same_column_read_once() {
    let s = posts()
        .ruled("author_id")
        .indexed(&["author_id"])
        .holding(5, "author_id", StoredValue::Int(42));
    let result = s.update(42, vec![kv(cell("posts", 5, "author_id"), i64_to_be(42))]).unwrap();
    assert_eq!(s.reads(), vec![cell("posts", 5, "author_id")]);
    assert_eq!(ops(&result).len(), 3);
}

#[test]
fn test_update_missing_row_fails_when_planned_old_acl_read_absent() {
    let s = posts().ruled("author_id");
    let msg = message(s.update(42, vec![kv(cell("posts", 5, "title"), vec![9u8; 32])]));
    assert_eq!(s.reads(), vec![cell("posts", 5, "author_id")]);
    assert!(
        msg.contains("does not exist") && msg.contains("planned old column reads"),
        "unexpected error: {msg}"
    );
}

#[test]
fn test_update_acl_rejects_authorship_reassignment() {
    let s = posts().ruled("author_id").holding(5, "author_id", StoredValue::Int(42));
    let msg = message(s.update(42, vec![kv(cell("posts", 5, "author_id"), i64_to_be(99))]));
    assert!(msg.contains("ACL denied: update new"), "unexpected error: {msg}");
}

#[test]
fn test_update_acl_resolves_id_column_from_row_id() {
    let s = posts().ruled("id").holding(1, "title", present());
    let result = s.update(1, vec![kv(cell("posts", 1, "title"), vec![0u8; 32])]);
    assert!(result.is_ok(), "expected Ok, got: {:?}", result.unwrap_err());
}

#[test]
fn test_update_acl_id_column_denies_other_actor() {
    let s = posts().ruled("id").holding(1, "title", present());
    let msg = message(s.update(2, vec![kv(cell("posts", 1, "title"), vec![0u8; 32])]));
    assert!(msg.contains("ACL denied: update existing"), "unexpected error: {msg}");
}

#[test]
fn test_update_acl_id_rule_non_acl_column_no_false_denial() {
    let s = posts().ruled("id").holding(5, "title", present());
    let result = s.update(5, vec![kv(cell("posts", 5, "title"), vec![0u8; 32])]);
    assert!(result.is_ok(), "expected Ok, got: {:?}", result.unwrap_err());
}

#[test]
fn test_update_acl_multirow_forbidden_value_not_hidden() {
    let s = posts()
        .ruled("author_id")
        .holding(1, "author_id", StoredValue::Int(42))
        .holding(2, "author_id", StoredValue::Int(42));
    let msg = message(s.update(
        42,
        vec![
            kv(cell("posts", 1, "author_id"), i64_to_be(99)),
            kv(cell("posts", 2, "author_id"), i64_to_be(42)),
        ],
    ));
    assert!(msg.contains("ACL denied: update new"), "unexpected error: {msg}");
}

#[test]
fn update_rejects_list_columns() {
    let mut s = table_t();
    s.list_columns = names(&["age"]);
    let msg = message(s.update(1, vec![kv(cell("t", 5, "age"), vec![0u8; 32])]));
    assert_eq!(
        msg,
        "update: column 'age' is a List column and cannot be modified by UPDATE — \
         use list operations instead"
    );
}

#[test]
fn update_names_the_first_unknown_column_by_name() {
    let s = table_t();
    let msg = message(s.update(
        1,
        vec![kv(cell("t", 1, "zip"), vec![]), kv(cell("t", 2, "city"), vec![])],
    ));
    assert_eq!(msg, "update: column 'city' does not exist in schema");
}

#[test]
fn update_reads_cells_in_order_of_row_and_column() {
    let s = space("t", &["a", "b", "c"])
        .ruled("c")
        .indexed(&["b"])
        .holding(1, "c", StoredValue::Int(7))
        .holding(2, "c", StoredValue::Int(7));
    s.update(
        7,
        vec![
            kv(cell("t", 1, "a"), vec![]),
            kv(cell("t", 1, "b"), i64_to_be(1)),
            kv(cell("t", 2, "b"), i64_to_be(2)),
        ],
    )
    .unwrap();
    assert_eq!(
        s.reads(),
        vec![cell("t", 1, "b"), cell("t", 1, "c"), cell("t", 2, "b"), cell("t", 2, "c")]
    );
}

#[test]
fn updates_are_refused_for_these_reasons() {
    let entries = |column: &str| vec![kv(cell("t", 5, column), vec![0u8; 32])];
    assert_eq!(
        message(table_t().update(1, entries("kind"))),
        "update: column 'kind' does not exist in schema"
    );
    assert_eq!(
        message(table_t().update(1, entries("age"))),
        "update: t row_id=5 does not exist; all planned old column reads were absent"
    );
    let mut listed = table_t();
    listed.list_columns = names(&["age"]);
    assert_eq!(
        message(listed.update(1, entries("age"))),
        "update: column 'age' is a List column and cannot be modified by UPDATE — use list operations instead"
    );
    let mut pieces = table_t();
    pieces.piece_text_columns = names(&["age"]);
    assert_eq!(
        message(pieces.update(1, entries("age"))),
        "update: column 'age' is a PieceText column and cannot be modified by UPDATE — use PieceTextEdit instead"
    );
}

#[test]
fn update_puts_every_entry_under_its_own_key_first() {
    let space = table_t()
        .indexed(&["age"])
        .holding(1, "age", StoredValue::Int(3))
        .holding(2, "age", StoredValue::Int(4));
    let entries = vec![
        kv(cell("t", 1, "age"), i64_to_be(30)),
        kv(cell("t", 1, "name"), vec![1]),
        kv(cell("t", 2, "age"), i64_to_be(40)),
    ];
    let result = space.update(1, entries.clone()).unwrap();
    let ops = ops(&result);
    assert_eq!(ops.len(), entries.len() + 4);
    for (op, entry) in ops.iter().zip(&entries) {
        assert_eq!(
            *op,
            BatchOp::Put { key: entry.key.clone(), value: StoredValue::Raw(entry.value.clone()) }
        );
    }
    assert!(ops[entries.len()..].iter().all(|op| matches!(op.key(), StorageKey::Index { .. })));
}
