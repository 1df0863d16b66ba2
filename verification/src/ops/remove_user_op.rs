//! The removal of a user.

use std::collections::BTreeSet;

use vstd::prelude::*;

use crate::changelog::{entries_view, ChangelogError, ErrorView, KvData, KvView};
use crate::faults::{OpFault, OpFaultView, OpName};
use crate::ops::key_history::{
    auth_key_read, append_ops, check_range, compared, current_auth_key, entry_put, entry_puts,
    next_change_fits, push_entry_puts, range_fault, read_auth_key, users_table, AuthKey, CompositeEntry, HistoryChecks,
};
use crate::ops::names::{add_name, insert_name, names_view};
use crate::ops::{includes_name, names_include, refusal, OpContext, OpVerifyResult};
use crate::storage::{
    batch_view, clone_key, lemma_made_none, lemma_made_one, made, Answers, BatchOp, BatchOpView,
    KeyView, OpReader, ReadOpView, StorageKey, StoredValue, ValueView,
};

verus! {

/// What is found out outside the library about the rows that a removal adds to
/// the table of what is kept of a user.
#[derive(Debug)]
pub struct RetentionChecks {
    /// The table's columns.
    pub columns: Result<Vec<String>, ChangelogError>,
    /// The next free row id of the table.
    pub next_id: Result<i64, ChangelogError>,
    /// The keys of the rows' cells, in the order of the entries.
    pub column_keys: Result<Vec<StorageKey>, ChangelogError>,
    /// The writes to indexes and to the counter of rows.
    pub index_puts: Result<Vec<BatchOp>, ChangelogError>,
    pub counter_put: Result<BatchOp, ChangelogError>,
}

/// What is found out outside the library about an entry that asks for a removal.
#[derive(Debug)]
pub struct RemoveUserChecks {
    pub parts: Result<CompositeEntry, ChangelogError>,
    /// The table and the row that all entries for users are for.
    pub user_row: Result<(String, i64), ChangelogError>,
    /// Whether the author may make changes.
    pub user_access: Result<(), ChangelogError>,
    /// The columns of the table of users.
    pub user_columns: Result<Vec<String>, ChangelogError>,
    pub history: HistoryChecks,
    pub retention: RetentionChecks,
}

pub open spec fn refused(fault: OpFaultView) -> ErrorView {
    refusal(OpName::RemoveUser, fault)
}

fn refuse(fault: OpFault) -> (e: ChangelogError)
    ensures
        e@ == refused(fault@),
{
    ChangelogError::Refused(OpName::RemoveUser, fault)
}

// ---------- the deleted row ----------

/// The rows whose cells the entries name.
pub open spec fn named_rows(entries: Seq<KvView>) -> Set<i64>
    decreases entries.len(),
{
    if entries.len() == 0 {
        Set::empty()
    } else {
        match entries.last().key {
            KeyView::Column { row_id, .. } => named_rows(entries.drop_last()).insert(row_id),
            _ => named_rows(entries.drop_last()),
        }
    }
}

/// The entries name a cell of the column.
pub open spec fn names_column(entries: Seq<KvView>, column: Seq<char>) -> bool {
    exists|i: int| 0 <= i < entries.len() && is_column(#[trigger] entries[i].key, column)
}

pub open spec fn is_column(key: KeyView, name: Seq<char>) -> bool {
    match key {
        KeyView::Column { column, .. } => column == name,
        _ => false,
    }
}

/// The columns that the entries name are the columns given.
pub open spec fn covers_columns(entries: Seq<KvView>, columns: Seq<String>) -> bool {
    forall|name: Seq<char>| #[trigger] names_column(entries, name) == names_include(columns, name)
}

/// The columns, in the order of names, that the entries do not name.
pub open spec fn missing_columns(entries: Seq<KvView>, columns: Seq<String>) -> Seq<Seq<char>>
    decreases columns.len(),
{
    if columns.len() == 0 {
        Seq::empty()
    } else {
        let before = missing_columns(entries, columns.drop_last());
        if names_column(entries, columns.last()@) {
            before
        } else {
            insert_name(before, columns.last()@)
        }
    }
}

fn collect_rows(entries: &Vec<KvData>) -> (rows: BTreeSet<i64>)
    ensures
        rows@ == named_rows(entries_view(entries@)),
{
    broadcast use vstd::std_specs::btree::group_btree_axioms;

    let ghost all = entries_view(entries@);
    let mut rows: BTreeSet<i64> = BTreeSet::new();
    let mut i: usize = 0;
    assert(rows@ =~= Set::empty());
    while i < entries.len()
        invariant
            i <= entries.len(),
            all == entries_view(entries@),
            rows@ == named_rows(all.take(i as int)),
        decreases entries.len() - i,
    {
        proof {
            assert(all.take(i + 1).drop_last() =~= all.take(i as int));
            assert(all.take(i + 1).last() == entries@[i as int]@);
        }
        if let StorageKey::Column { row_id, .. } = &entries[i].key {
            rows.insert(*row_id);
        }
        i = i + 1;
    }
    assert(all.take(i as int) =~= all);
    rows
}

/// The names of the columns that the entries name, with repetitions.
fn named_columns(entries: &Vec<KvData>) -> (columns: Vec<String>)
    ensures
        forall|name: Seq<char>| #[trigger]
            names_column(entries_view(entries@), name) == names_include(columns@, name),
{
    let ghost all = entries_view(entries@);
    let mut columns: Vec<String> = Vec::new();
    let mut i: usize = 0;
    while i < entries.len()
        invariant
            i <= entries.len(),
            all == entries_view(entries@),
            forall|name: Seq<char>| #[trigger]
                names_column(all.take(i as int), name) == names_include(columns@, name),
        decreases entries.len() - i,
    {
        let ghost before = columns@;
        let ghost seen = all.take(i as int);
        let ghost more = all.take(i + 1);
        let ghost key = all[i as int].key;
        if let StorageKey::Column { column, .. } = &entries[i].key {
            columns.push(column.clone());
        }
        proof {
            assert(more =~= seen.push(all[i as int]));
            assert(all[i as int] == entries@[i as int]@);
            assert forall|name: Seq<char>| #[trigger] names_column(more, name) == names_include(
                columns@,
                name,
            ) by {
                assert(names_column(seen, name) == names_include(before, name));
                if names_column(seen, name) {
                    let k = choose|k: int| 0 <= k < seen.len() && is_column(#[trigger] seen[k].key, name);
                    assert(is_column(more[k].key, name));
                    let j = choose|j: int| 0 <= j < before.len() && (#[trigger] before[j])@ == name;
                    assert(columns@[j]@ == name);
                }
                if is_column(key, name) {
                    assert(is_column(more[i as int].key, name));
                    assert(columns@[before.len() as int]@ == name);
                }
                if names_column(more, name) && !is_column(key, name) {
                    let k = choose|k: int| 0 <= k < more.len() && is_column(#[trigger] more[k].key, name);
                    assert(is_column(seen[k].key, name));
                }
                if names_include(columns@, name) && !is_column(key, name) {
                    let j = choose|j: int| 0 <= j < columns@.len() && (#[trigger] columns@[j])@ == name;
                    assert(before[j]@ == name);
                }
            }
        }
        i = i + 1;
    }
    assert(all.take(i as int) =~= all);
    columns
}

/// Whether every name of one list is in the other.
fn all_included(names: &Vec<String>, others: &Vec<String>) -> (r: bool)
    ensures
        r == (forall|name: Seq<char>| #[trigger]
            names_include(names@, name) ==> names_include(others@, name)),
{
    let mut i: usize = 0;
    while i < names.len()
        invariant
            i <= names.len(),
            forall|j: int| 0 <= j < i ==> names_include(others@, (#[trigger] names@[j])@),
        decreases names.len() - i,
    {
        if !includes_name(others, &names[i]) {
            assert(names_include(names@, names@[i as int]@));
            return false;
        }
        i = i + 1;
    }
    assert forall|name: Seq<char>| #[trigger] names_include(names@, name) implies names_include(
        others@,
        name,
    ) by {
        let j = choose|j: int| 0 <= j < names@.len() && (#[trigger] names@[j])@ == name;
        assert(names_include(others@, names@[j]@));
    }
    true
}

/// The columns that the entries do not name, unless the entries name just the
/// columns given.
fn check_columns(entries: &Vec<KvData>, columns: &Vec<String>) -> (r: Option<Vec<String>>)
    ensures
        r is None <==> covers_columns(entries_view(entries@), columns@),
        r matches Some(missing) ==> names_view(missing@) == missing_columns(
            entries_view(entries@),
            columns@,
        ),
{
    let ghost all = entries_view(entries@);
    let actual = named_columns(entries);
    let forward = all_included(&actual, columns);
    let backward = all_included(columns, &actual);
    assert((forward && backward) == covers_columns(all, columns@)) by {
        if forward && backward {
            assert forall|name: Seq<char>| #[trigger] names_column(all, name) == names_include(
                columns@,
                name,
            ) by {
                assert(names_include(actual@, name) ==> names_include(columns@, name));
                assert(names_include(columns@, name) ==> names_include(actual@, name));
            }
        }
        if covers_columns(all, columns@) {
            assert forall|name: Seq<char>| #[trigger] names_include(actual@, name) implies names_include(
                columns@,
                name,
            ) by {
                assert(names_column(all, name) == names_include(actual@, name));
            }
            assert forall|name: Seq<char>| #[trigger] names_include(columns@, name) implies names_include(
                actual@,
                name,
            ) by {
                assert(names_column(all, name) == names_include(columns@, name));
            }
        }
    }
    if forward && backward {
        return None;
    }
    let mut missing: Vec<String> = Vec::new();
    let mut i: usize = 0;
    assert(names_view(missing@) =~= Seq::empty());
    while i < columns.len()
        invariant
            i <= columns.len(),
            forall|name: Seq<char>| #[trigger]
                names_column(all, name) == names_include(actual@, name),
            names_view(missing@) == missing_columns(all, columns@.take(i as int)),
        decreases columns.len() - i,
    {
        proof {
            assert(columns@.take(i + 1).drop_last() =~= columns@.take(i as int));
            assert(names_column(all, columns@[i as int]@) == names_include(
                actual@,
                columns@[i as int]@,
            ));
        }
        if !includes_name(&actual, &columns[i]) {
            add_name(&mut missing, &columns[i]);
        }
        i = i + 1;
    }
    assert(columns@.take(i as int) =~= columns@);
    Some(missing)
}

// ---------- the entries for the user ----------

/// The row to be deleted, and the last change that the user's key is valid for.
pub struct Removal {
    pub uid: u32,
    pub valid_to: i64,
}

/// The entries, if they are such as a removal has.
pub open spec fn removal_parts(checks: RemoveUserChecks) -> Result<CompositeEntry, ErrorView> {
    match checks.parts {
        Err(e) => Err(e@),
        Ok(parts) => if parts.key_history.len() == 0 {
            Err(refused(OpFaultView::NoKeyHistory))
        } else if parts.users.len() == 0 {
            Err(refused(OpFaultView::NoUsers))
        } else {
            Ok(parts)
        },
    }
}

/// The user to be removed, if the entries delete one whole row of the table of
/// users and the author may do so. The user's key is valid up to the change
/// before this one.
pub open spec fn removal_of(
    user_row: Result<(String, i64), ChangelogError>,
    user_access: Result<(), ChangelogError>,
    user_columns: Result<Vec<String>, ChangelogError>,
    users: Seq<KvView>,
    current_change_id: u64,
) -> Result<Removal, ErrorView> {
    if current_change_id == 0 {
        Err(refused(OpFaultView::ChangeIdZero))
    } else {
        match user_row {
            Err(e) => Err(e@),
            Ok((table, row_id)) => if table@ != users_table() {
                Err(refused(OpFaultView::UserTable { table: table@ }))
            } else {
                match user_access {
                    Err(e) => Err(e@),
                    Ok(_) => match user_columns {
                        Err(e) => Err(e@),
                        Ok(columns) => if named_rows(users).len() != 1 {
                            Err(
                                refused(
                                    OpFaultView::DeletedRows { count: named_rows(users).len() as usize },
                                ),
                            )
                        } else if !covers_columns(users, columns@) {
                            Err(
                                refused(
                                    OpFaultView::MissingColumns {
                                        row_id: named_rows(users).choose(),
                                        missing: missing_columns(users, columns@),
                                    },
                                ),
                            )
                        } else {
                            Ok(
                                Removal {
                                    uid: row_id as u32,
                                    valid_to: (current_change_id - 1) as u64 as i64,
                                },
                            )
                        },
                    },
                }
            },
        }
    }
}

/// Checks the entries for the table of users, and gives what the checks of the
/// history go by.
pub fn check_removal(
    user_row: Result<(String, i64), ChangelogError>,
    user_access: Result<(), ChangelogError>,
    user_columns: Result<Vec<String>, ChangelogError>,
    users: &Vec<KvData>,
    current_change_id: u64,
) -> (r: Result<Removal, ChangelogError>)
    ensures
        match removal_of(
            user_row,
            user_access,
            user_columns,
            entries_view(users@),
            current_change_id,
        ) {
            Ok(removal) => r == Ok::<Removal, ChangelogError>(removal),
            Err(e) => r matches Err(x) && x@ == e,
        },
{
    broadcast use vstd::std_specs::btree::group_btree_axioms;

    if current_change_id == 0 {
        return Err(refuse(OpFault::ChangeIdZero));
    }
    let previous: u64 = current_change_id - 1;
    let (table, row_id) = user_row?;
    if table != "_users".to_owned() {
        return Err(refuse(OpFault::UserTable { table }));
    }
    user_access?;
    let columns = user_columns?;
    let rows = collect_rows(users);
    if rows.len() != 1 {
        return Err(refuse(OpFault::DeletedRows { count: rows.len() }));
    }
    if let Some(missing) = check_columns(users, &columns) {
        let mut deleted: i64 = 0;
        for id in it: rows.iter()
            invariant
                it.seq().unref().to_set() == rows@,
                rows@.len() == 1,
                it.index() > 0 ==> rows@.contains(deleted),
        {
            deleted = *id;
        }
        return Err(refuse(OpFault::MissingColumns { row_id: deleted, missing }));
    }
    Ok(Removal { uid: row_id as u32, valid_to: previous as i64 })
}

// ---------- the history ----------

/// What is wrong with what the new row of the history says, if anything. The
/// range that it names must continue the earlier ones, and the key must be the
/// user's current one.
pub open spec fn removal_row_fault(answers: Answers, history: HistoryChecks, removal: Removal) -> Option<
    ErrorView,
> {
    let uid = removal.uid;
    let valid_to = removal.valid_to;
    match history.valid_from {
        Err(e) => Some(e@),
        Ok(valid_from) => if valid_from > valid_to {
            Some(refused(OpFaultView::RangeBackward { valid_from, valid_to }))
        } else {
            match history.old_auth_key {
                Err(e) => Some(e@),
                Ok(old_auth_key) => match current_auth_key(answers, uid) {
                    Err(e) => Some(e),
                    Ok(current) => match compared(current, old_auth_key@) {
                        AuthKey::Absent => Some(refused(OpFaultView::DeletedAuthKeyAbsent { uid })),
                        AuthKey::Different => Some(
                            refused(OpFaultView::DeletedAuthKeyMismatch { uid }),
                        ),
                        AuthKey::Same => match history.existing_ranges {
                            Err(e) => Some(e@),
                            Ok(ranges) => match range_fault(ranges@, valid_from, valid_to, uid) {
                                Some(f) => Some(refused(f)),
                                None => if ranges.len() == 0 && valid_from != 0 {
                                    Some(refused(OpFaultView::FirstHistory { valid_from, uid }))
                                } else {
                                    None
                                },
                            },
                        },
                    },
                },
            }
        },
    }
}

/// If the new range is compared with the earlier ones at all, the change after
/// those can be told.
pub open spec fn removal_range_fits(answers: Answers, history: HistoryChecks, removal: Removal) -> bool {
    match (
        history.row_id,
        history.column_keys,
        history.structure,
        history.valid_from,
        history.old_auth_key,
        current_auth_key(answers, removal.uid),
        history.existing_ranges,
    ) {
        (Ok(_), Ok(_), Ok(_), Ok(valid_from), Ok(old_auth_key), Ok(current), Ok(ranges)) => valid_from
            <= removal.valid_to && compared(current, old_auth_key@) is Same ==> next_change_fits(
            ranges@,
            valid_from,
            removal.valid_to,
        ),
        _ => true,
    }
}

/// The cells of the new row of the history. Where the range ends is not taken
/// from the entry.
pub open spec fn history_puts(keys: Seq<StorageKey>, entries: Seq<KvView>, valid_to: i64) -> Seq<BatchOpView> {
    let puts = entry_puts(keys, entries);
    Seq::new(
        puts.len(),
        |i: int|
            if is_column(keys[i]@, "valid_to_change_id"@) {
                BatchOpView::Put { key: keys[i]@, value: ValueView::Int(valid_to) }
            } else {
                puts[i]
            },
    )
}

fn push_history_puts(ops: &mut Vec<BatchOp>, keys: &Vec<StorageKey>, entries: &Vec<KvData>, valid_to: i64)
    ensures
        batch_view(final(ops)@) == batch_view(old(ops)@) + history_puts(
            keys@,
            entries_view(entries@),
            valid_to,
        ),
{
    let ghost start = batch_view(ops@);
    let ghost puts = history_puts(keys@, entries_view(entries@), valid_to);
    let mut i: usize = 0;
    assert(start + puts.take(0) =~= start);
    while i < keys.len() && i < entries.len()
        invariant
            i <= keys.len(),
            i <= entries.len(),
            puts == history_puts(keys@, entries_view(entries@), valid_to),
            batch_view(ops@) == start + puts.take(i as int),
        decreases keys.len() - i,
    {
        let is_valid_to = match &keys[i] {
            StorageKey::Column { column, .. } => *column == "valid_to_change_id".to_owned(),
            _ => false,
        };
        let op = if is_valid_to {
            BatchOp::Put { key: clone_key(&keys[i]), value: StoredValue::Int(valid_to) }
        } else {
            entry_put(&keys[i], &entries[i])
        };
        let ghost before = batch_view(ops@);
        ops.push(op);
        proof {
            assert(entries_view(entries@)[i as int] == entries@[i as int]@);
            assert(op@ == puts[i as int]);
            assert(batch_view(ops@) =~= before.push(op@));
            assert(puts.take(i + 1) =~= puts.take(i as int).push(op@));
            assert(before.push(op@) =~= start + puts.take(i + 1));
        }
        i = i + 1;
    }
    assert(puts.take(i as int) =~= puts);
}

// ---------- what is kept ----------

/// The number of columns of that many names, one named twice being one.
pub open spec fn column_count(columns: Seq<String>) -> nat {
    names_view(columns).to_set().len()
}

fn count_columns(columns: &Vec<String>) -> (n: usize)
    ensures
        n == column_count(columns@),
{
    broadcast use vstd::seq_lib::seq_to_set_is_finite;

    let mut seen: Vec<String> = Vec::new();
    let mut n: usize = 0;
    let mut i: usize = 0;
    assert(names_view(columns@.take(0)).to_set() =~= Set::empty());
    assert(seen@ =~= columns@.take(0));
    while i < columns.len()
        invariant
            n <= i <= columns.len(),
            seen@ =~= columns@.take(i as int),
            n == column_count(columns@.take(i as int)),
        decreases columns.len() - i,
    {
        let ghost before = names_view(columns@.take(i as int));
        let ghost name = columns@[i as int]@;
        let known = includes_name(&seen, &columns[i]);
        proof {
            assert(names_view(columns@.take(i + 1)) =~= before.push(name));
            before.lemma_push_to_set_commute(name);
            assert(known == before.to_set().contains(name)) by {
                if known {
                    let j = choose|j: int| 0 <= j < seen@.len() && (#[trigger] seen@[j])@ == name;
                    assert(before[j] == name);
                }
                if before.contains(name) {
                    let j = choose|j: int| 0 <= j < before.len() && before[j] == name;
                    assert(seen@[j]@ == name);
                }
            }
            assert(known ==> before.to_set().insert(name) =~= before.to_set());
        }
        if !known {
            n = n + 1;
        }
        seen.push(columns[i].clone());
        i = i + 1;
    }
    assert(columns@.take(i as int) =~= columns@);
    n
}

proof fn lemma_some_column(columns: Seq<String>)
    requires
        columns.len() > 0,
    ensures
        column_count(columns) > 0,
{
    broadcast use vstd::seq_lib::seq_to_set_is_finite;

    let names = names_view(columns);
    assert(names.to_set().contains(names[0]));
    assert(names.to_set().len() != 0);
}

/// The number of rows that the entries make up, each with a cell in every
/// column.
pub fn retention_rows(entries: usize, columns: usize) -> (n: i64)
    requires
        columns > 0,
        entries <= i64::MAX,
    ensures
        n == entries / columns,
{
    let n: usize = entries / columns;
    assert(n <= entries) by (nonlinear_arith)
        requires
            columns > 0,
            n == entries / columns,
    ;
    n as i64
}

/// The writes of what is kept of the user.
pub open spec fn retention_writes(retention: RetentionChecks, entries: Seq<KvData>) -> Result<
    Seq<BatchOpView>,
    ErrorView,
> {
    if entries.len() == 0 {
        Ok(Seq::empty())
    } else {
        match retention.columns {
            Err(e) => Err(e@),
            Ok(columns) => if !covers_columns(entries_view(entries), columns@) {
                Err(
                    refused(
                        OpFaultView::RetentionColumns {
                            missing: missing_columns(entries_view(entries), columns@),
                        },
                    ),
                )
            } else if columns.len() == 0 {
                Err(refused(OpFaultView::RetentionNoColumns))
            } else if entries.len() % column_count(columns@) != 0 {
                Err(
                    refused(
                        OpFaultView::RetentionCount {
                            count: entries.len() as usize,
                            columns: column_count(columns@) as usize,
                        },
                    ),
                )
            } else {
                match retention.next_id {
                    Err(e) => Err(e@),
                    Ok(_) => match retention.column_keys {
                        Err(e) => Err(e@),
                        Ok(keys) => match retention.index_puts {
                            Err(e) => Err(e@),
                            Ok(index_puts) => match retention.counter_put {
                                Err(e) => Err(e@),
                                Ok(counter_put) => Ok(
                                    entry_puts(keys@, entries_view(entries)) + batch_view(index_puts@)
                                        + seq![counter_put@],
                                ),
                            },
                        },
                    },
                }
            },
        }
    }
}

fn push_retention(ops: &mut Vec<BatchOp>, retention: RetentionChecks, entries: &Vec<KvData>) -> (r: Result<
    (),
    ChangelogError,
>)
    ensures
        match retention_writes(retention, entries@) {
            Ok(w) => r is Ok && batch_view(final(ops)@) == batch_view(old(ops)@) + w,
            Err(e) => r matches Err(x) && x@ == e,
        },
{
    let ghost start = batch_view(ops@);
    if entries.len() == 0 {
        assert(start + Seq::empty() =~= start);
        return Ok(());
    }
    let columns = retention.columns?;
    if let Some(missing) = check_columns(entries, &columns) {
        return Err(refuse(OpFault::RetentionColumns { missing }));
    }
    if columns.len() == 0 {
        return Err(refuse(OpFault::RetentionNoColumns));
    }
    let column_count: usize = count_columns(&columns);
    proof {
        lemma_some_column(columns@);
    }
    if entries.len() % column_count != 0 {
        return Err(
            refuse(OpFault::RetentionCount { count: entries.len(), columns: column_count }),
        );
    }
    retention.next_id?;
    let keys = retention.column_keys?;
    let index_puts = retention.index_puts?;
    let counter_put = retention.counter_put?;
    push_entry_puts(ops, &keys, entries);
    append_ops(ops, index_puts);
    let ghost before = batch_view(ops@);
    ops.push(counter_put);
    proof {
        let w = retention_writes(retention, entries@)->Ok_0;
        assert(batch_view(ops@) =~= before + seq![counter_put@]);
        assert(batch_view(ops@) =~= start + w);
    }
    Ok(())
}

// ---------- the operation ----------

/// The deletion of what the entries name.
pub open spec fn entry_deletes(entries: Seq<KvView>) -> Seq<BatchOpView> {
    Seq::new(entries.len(), |i: int| BatchOpView::Delete { key: entries[i].key })
}

fn push_deletes(ops: &mut Vec<BatchOp>, entries: &Vec<KvData>)
    ensures
        batch_view(final(ops)@) == batch_view(old(ops)@) + entry_deletes(entries_view(entries@)),
{
    let ghost start = batch_view(ops@);
    let ghost deletes = entry_deletes(entries_view(entries@));
    let mut i: usize = 0;
    assert(start + deletes.take(0) =~= start);
    while i < entries.len()
        invariant
            i <= entries.len(),
            deletes == entry_deletes(entries_view(entries@)),
            batch_view(ops@) == start + deletes.take(i as int),
        decreases entries.len() - i,
    {
        let op = BatchOp::Delete { key: clone_key(&entries[i].key) };
        let ghost before = batch_view(ops@);
        ops.push(op);
        proof {
            assert(entries_view(entries@)[i as int] == entries@[i as int]@);
            assert(op@ == deletes[i as int]);
            assert(batch_view(ops@) =~= before.push(op@));
            assert(deletes.take(i + 1) =~= deletes.take(i as int).push(op@));
            assert(before.push(op@) =~= start + deletes.take(i + 1));
        }
        i = i + 1;
    }
    assert(deletes.take(i as int) =~= deletes);
}

/// The writes of the history, or why there are none.
pub open spec fn history_writes(
    answers: Answers,
    history: HistoryChecks,
    removal: Removal,
    entries: Seq<KvView>,
) -> Result<Seq<BatchOpView>, ErrorView> {
    match history.row_id {
        Err(e) => Err(e@),
        Ok(_) => match history.column_keys {
            Err(e) => Err(e@),
            Ok(keys) => match history.structure {
                Err(e) => Err(e@),
                Ok(_) => match removal_row_fault(answers, history, removal) {
                    Some(e) => Err(e),
                    None => match history.index_puts {
                        Err(e) => Err(e@),
                        Ok(index_puts) => match history.counter_put {
                            Err(e) => Err(e@),
                            Ok(counter_put) => Ok(
                                history_puts(keys@, entries, removal.valid_to) + batch_view(
                                    index_puts@,
                                ) + seq![counter_put@],
                            ),
                        },
                    },
                },
            },
        },
    }
}

fn push_history<R: OpReader>(
    ops: &mut Vec<BatchOp>,
    reader: &mut R,
    history: HistoryChecks,
    removal: &Removal,
    entries: &Vec<KvData>,
) -> (r: Result<(), ChangelogError>)
    requires
        removal_range_fits(old(reader).answers(), history, *removal),
    ensures
        final(reader).answers() == old(reader).answers(),
        made(old(reader).log(), final(reader).log(), seq![auth_key_read(removal.uid)], r is Ok),
        match history_writes(old(reader).answers(), history, *removal, entries_view(entries@)) {
            Ok(w) => r is Ok && batch_view(final(ops)@) == batch_view(old(ops)@) + w,
            Err(e) => r matches Err(x) && x@ == e,
        },
{
    let ghost start = batch_view(ops@);
    let ghost answers = reader.answers();
    let ghost log = reader.log();
    proof {
        lemma_made_none(log, seq![auth_key_read(removal.uid)]);
        lemma_made_one(log, auth_key_read(removal.uid));
    }
    history.row_id?;
    let keys = history.column_keys?;
    history.structure?;
    let uid: u32 = removal.uid;
    let valid_to: i64 = removal.valid_to;
    let valid_from: i64 = history.valid_from?;
    if valid_from > valid_to {
        return Err(refuse(OpFault::RangeBackward { valid_from, valid_to }));
    }
    let old_auth_key = history.old_auth_key?;
    match read_auth_key(reader, uid, &old_auth_key)? {
        AuthKey::Same => {},
        AuthKey::Absent => {
            return Err(refuse(OpFault::DeletedAuthKeyAbsent { uid }));
        },
        AuthKey::Different => {
            return Err(refuse(OpFault::DeletedAuthKeyMismatch { uid }));
        },
    }
    let existing_ranges = history.existing_ranges?;
    if let Some(fault) = check_range(&existing_ranges, valid_from, valid_to, uid) {
        return Err(refuse(fault));
    }
    if existing_ranges.len() == 0 && valid_from != 0 {
        return Err(refuse(OpFault::FirstHistory { valid_from, uid }));
    }
    let index_puts = history.index_puts?;
    let counter_put = history.counter_put?;
    push_history_puts(ops, &keys, entries, valid_to);
    append_ops(ops, index_puts);
    let ghost before = batch_view(ops@);
    ops.push(counter_put);
    proof {
        let w = history_writes(answers, history, *removal, entries_view(entries@))->Ok_0;
        assert(batch_view(ops@) =~= before + seq![counter_put@]);
        assert(batch_view(ops@) =~= start + w);
    }
    Ok(())
}

/// The writes of an entry that asks for a removal: the user's row goes, a row of
/// the history comes, and what is kept of the user.
pub open spec fn removal_operation(answers: Answers, checks: RemoveUserChecks, current_change_id: u64) -> Result<
    Seq<BatchOpView>,
    ErrorView,
> {
    match removal_parts(checks) {
        Err(e) => Err(e),
        Ok(parts) => match removal_of(
            checks.user_row,
            checks.user_access,
            checks.user_columns,
            entries_view(parts.users@),
            current_change_id,
        ) {
            Err(e) => Err(e),
            Ok(removal) => match history_writes(
                answers,
                checks.history,
                removal,
                entries_view(parts.key_history@),
            ) {
                Err(e) => Err(e),
                Ok(history) => match retention_writes(checks.retention, parts.retention@) {
                    Err(e) => Err(e),
                    Ok(retention) => Ok(
                        entry_deletes(entries_view(parts.users@)) + history + retention,
                    ),
                },
            },
        },
    }
}

/// If a removal comes as far as its range of changes, the change after the
/// earlier ranges can be told.
pub open spec fn removal_fits(answers: Answers, checks: RemoveUserChecks, current_change_id: u64) -> bool {
    match removal_parts(checks) {
        Err(_) => true,
        Ok(parts) => match removal_of(
            checks.user_row,
            checks.user_access,
            checks.user_columns,
            entries_view(parts.users@),
            current_change_id,
        ) {
            Err(_) => true,
            Ok(removal) => removal_range_fits(answers, checks.history, removal),
        },
    }
}

/// The reads of a removal: the key of the user that goes.
pub open spec fn removal_reads(checks: RemoveUserChecks, current_change_id: u64) -> Seq<ReadOpView> {
    match removal_parts(checks) {
        Err(_) => Seq::empty(),
        Ok(parts) => match removal_of(
            checks.user_row,
            checks.user_access,
            checks.user_columns,
            entries_view(parts.users@),
            current_change_id,
        ) {
            Err(_) => Seq::empty(),
            Ok(removal) => seq![auth_key_read(removal.uid)],
        },
    }
}

/// The removal of a user.
pub struct RemoveUserOp;

impl RemoveUserOp {
    /// Verifies an entry that asks for a removal, and gives the writes.
    pub fn extract_and_validate<R: OpReader>(reader: &mut R, ctx: &OpContext, checks: RemoveUserChecks) -> (r: Result<
        OpVerifyResult,
        ChangelogError,
    >)
        requires
            removal_fits(old(reader).answers(), checks, ctx.current_change_id),
        ensures
            final(reader).answers() == old(reader).answers(),
            made(
                old(reader).log(),
                final(reader).log(),
                removal_reads(checks, ctx.current_change_id),
                r is Ok,
            ),
            match removal_operation(old(reader).answers(), checks, ctx.current_change_id) {
                Ok(writes) => r matches Ok(result) && result.writes(writes),
                Err(e) => r matches Err(x) && x@ == e,
            },
    {
        let ghost answers = reader.answers();
        proof {
            lemma_made_none(reader.log(), removal_reads(checks, ctx.current_change_id));
        }
        let parts = checks.parts?;
        if parts.key_history.len() == 0 {
            return Err(refuse(OpFault::NoKeyHistory));
        }
        if parts.users.len() == 0 {
            return Err(refuse(OpFault::NoUsers));
        }
        let removal = check_removal(
            checks.user_row,
            checks.user_access,
            checks.user_columns,
            &parts.users,
            ctx.current_change_id,
        )?;
        let mut ops: Vec<BatchOp> = Vec::new();
        push_deletes(&mut ops, &parts.users);
        push_history(&mut ops, reader, checks.history, &removal, &parts.key_history)?;
        push_retention(&mut ops, checks.retention, &parts.retention)?;
        proof {
            assert(batch_view(ops@) =~= removal_operation(
                answers,
                checks,
                ctx.current_change_id,
            )->Ok_0);
        }
        Ok(OpVerifyResult::of_writes(ops))
    }
}

} // verus!
