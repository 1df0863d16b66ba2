//! The replacement of a user's keys by the user.

use vstd::prelude::*;

use crate::changelog::{entries_view, ChangelogEntry, ChangelogError, ErrorView, KvData, KvView};
use crate::faults::{OpFault, OpFaultView, OpName};
use crate::ops::key_history::{
    append_ops, auth_key_read, check_range, compared, current_auth_key, entry_puts, push_entry_puts, range_fault,
    next_change_fits, read_auth_key, users_table, AuthKey, CompositeEntry, HistoryChecks,
};
use crate::ops::names::{before_from, name_before};
use crate::ops::{refusal, OpVerifyResult};
use crate::storage::{
    batch_view, lemma_made_none, lemma_made_one, made, Answers, BatchOp, BatchOpView, KeyView,
    OpReader, StorageKey,
};

verus! {

/// A column of the table of users that a refresh may change.
pub open spec fn refresh_allowed(column: Seq<char>) -> bool {
    column == "update_key"@ || column == "auth_key"@ || column == "status"@
}

/// What is found out outside the library about an entry that asks for a refresh.
#[derive(Debug)]
pub struct RefreshKeysChecks {
    /// Whether the entries are in order.
    pub sorted: Result<(), ChangelogError>,
    pub parts: Result<CompositeEntry, ChangelogError>,
    /// Whether the author may make changes.
    pub user_access: Result<(), ChangelogError>,
    pub history: HistoryChecks,
    /// The table that the entries for users are for.
    pub users_table: Result<String, ChangelogError>,
}

pub open spec fn refused(fault: OpFaultView) -> ErrorView {
    refusal(OpName::RefreshKeys, fault)
}

fn refuse(fault: OpFault) -> (e: ChangelogError)
    ensures
        e@ == refused(fault@),
{
    ChangelogError::Refused(OpName::RefreshKeys, fault)
}

/// The column that a key names, if a refresh may not change it.
pub open spec fn barred_column(key: KeyView) -> Option<Seq<char>> {
    match key {
        KeyView::Column { column, .. } => if refresh_allowed(column) {
            None
        } else {
            Some(column)
        },
        _ => None,
    }
}

/// The first, in the order of names, of the columns that a refresh may not change.
pub open spec fn first_barred(entries: Seq<KvView>) -> Option<Seq<char>>
    decreases entries.len(),
{
    if entries.len() == 0 {
        None
    } else {
        match (first_barred(entries.drop_last()), barred_column(entries.last().key)) {
            (Some(found), Some(name)) => if before_from(name, found, 0) {
                Some(name)
            } else {
                Some(found)
            },
            (Some(found), None) => Some(found),
            (None, barred) => barred,
        }
    }
}

/// A column that a refresh may not change.
pub open spec fn column_fault(entries: Seq<KvView>) -> Option<ErrorView> {
    match first_barred(entries) {
        Some(column) => Some(refused(OpFaultView::ColumnNotAllowed { column })),
        None => None,
    }
}

/// The entries, if they are such as a refresh has.
pub open spec fn refresh_parts(checks: RefreshKeysChecks) -> Result<CompositeEntry, ErrorView> {
    match checks.sorted {
        Err(e) => Err(e@),
        Ok(_) => match checks.parts {
            Err(e) => Err(e@),
            Ok(parts) => if parts.retention.len() > 0 {
                Err(refused(OpFaultView::UnexpectedRetention))
            } else if parts.key_history.len() == 0 {
                Err(refused(OpFaultView::NoKeyHistory))
            } else if parts.users.len() == 0 {
                Err(refused(OpFaultView::NoUsers))
            } else {
                Ok(parts)
            },
        },
    }
}

/// The keys of the new row of the history, if the entries may be written.
pub open spec fn refresh_keys(checks: RefreshKeysChecks, users: Seq<KvView>) -> Result<
    Seq<StorageKey>,
    ErrorView,
> {
    match checks.user_access {
        Err(e) => Err(e@),
        Ok(_) => match checks.history.row_id {
            Err(e) => Err(e@),
            Ok(_) => match checks.history.column_keys {
                Err(e) => Err(e@),
                Ok(keys) => match checks.history.structure {
                    Err(e) => Err(e@),
                    Ok(_) => match checks.users_table {
                        Err(e) => Err(e@),
                        Ok(table) => if table@ != users_table() {
                            Err(refused(OpFaultView::NotUsersTable { table: table@ }))
                        } else {
                            match column_fault(users) {
                                Some(e) => Err(e),
                                None => Ok(keys@),
                            }
                        },
                    },
                },
            },
        },
    }
}

/// What is wrong with what the new row says, if anything. The range that it names
/// must end at the author's last change and continue the earlier ones, and the
/// key must be the author's current one.
pub open spec fn refresh_row_fault(
    answers: Answers,
    history: HistoryChecks,
    uid: u32,
    sig_ref: u32,
) -> Option<ErrorView> {
    match history.valid_to {
        Err(e) => Some(e@),
        Ok(valid_to) => if valid_to != sig_ref {
            Some(refused(OpFaultView::ValidToMismatch { valid_to, sig_ref }))
        } else {
            match history.valid_from {
                Err(e) => Some(e@),
                Ok(valid_from) => if valid_from > valid_to {
                    Some(refused(OpFaultView::RangeBackward { valid_from, valid_to }))
                } else {
                    match history.old_auth_key {
                        Err(e) => Some(e@),
                        Ok(old_auth_key) => match current_auth_key(answers, uid) {
                            Err(e) => Some(e),
                            Ok(current) => match compared(current, old_auth_key@) {
                                AuthKey::Absent => Some(refused(OpFaultView::AuthKeyAbsent { uid })),
                                AuthKey::Different => Some(
                                    refused(OpFaultView::AuthKeyMismatch { uid }),
                                ),
                                AuthKey::Same => match history.existing_ranges {
                                    Err(e) => Some(e@),
                                    Ok(ranges) => match range_fault(
                                        ranges@,
                                        valid_from,
                                        valid_to,
                                        uid,
                                    ) {
                                        Some(f) => Some(refused(f)),
                                        None => if ranges.len() == 0 && valid_from != 0 {
                                            Some(
                                                refused(
                                                    OpFaultView::FirstRotation { valid_from, uid },
                                                ),
                                            )
                                        } else {
                                            None
                                        },
                                    },
                                },
                            },
                        },
                    }
                },
            }
        },
    }
}

/// The entries are such as a refresh has, and may be written.
pub open spec fn may_refresh(checks: RefreshKeysChecks) -> bool {
    refresh_parts(checks) matches Ok(parts) && refresh_keys(checks, entries_view(parts.users@)) is Ok
}

/// If a refresh comes as far as its range of changes, the change after the
/// earlier ranges can be told.
pub open spec fn refresh_fits(answers: Answers, checks: RefreshKeysChecks, entry: ChangelogEntry) -> bool {
    let history = checks.history;
    match (
        history.valid_to,
        history.valid_from,
        history.old_auth_key,
        current_auth_key(answers, entry.uid),
        history.existing_ranges,
    ) {
        (Ok(valid_to), Ok(valid_from), Ok(old_auth_key), Ok(current), Ok(ranges)) => may_refresh(checks)
            && valid_to == entry.sig_ref && valid_from <= valid_to && compared(
            current,
            old_auth_key@,
        ) is Same ==> next_change_fits(ranges@, valid_from, valid_to),
        _ => true,
    }
}

/// The writes of an entry that asks for a refresh: the new row of the history,
/// the user's new keys, index entries and the counter.
pub open spec fn refresh_operation(answers: Answers, checks: RefreshKeysChecks, entry: ChangelogEntry) -> Result<
    Seq<BatchOpView>,
    ErrorView,
> {
    match refresh_parts(checks) {
        Err(e) => Err(e),
        Ok(parts) => match refresh_keys(checks, entries_view(parts.users@)) {
            Err(e) => Err(e),
            Ok(keys) => match refresh_row_fault(answers, checks.history, entry.uid, entry.sig_ref) {
                Some(e) => Err(e),
                None => match checks.history.index_puts {
                    Err(e) => Err(e@),
                    Ok(index_puts) => match checks.history.counter_put {
                        Err(e) => Err(e@),
                        Ok(counter_put) => Ok(
                            entry_puts(keys, entries_view(parts.key_history@)) + own_puts(
                                parts.users@,
                            ) + batch_view(index_puts@) + seq![counter_put@],
                        ),
                    },
                },
            },
        },
    }
}

/// The entries' values under their own keys.
pub open spec fn own_puts(entries: Seq<KvData>) -> Seq<BatchOpView> {
    entry_puts(entries.map_values(|kv: KvData| kv.key), entries_view(entries))
}

fn push_own_puts(ops: &mut Vec<BatchOp>, entries: &Vec<KvData>)
    ensures
        batch_view(final(ops)@) == batch_view(old(ops)@) + own_puts(entries@),
{
    let ghost start = batch_view(ops@);
    let ghost puts = own_puts(entries@);
    let mut i: usize = 0;
    assert(start + puts.take(0) =~= start);
    while i < entries.len()
        invariant
            i <= entries.len(),
            puts == own_puts(entries@),
            batch_view(ops@) == start + puts.take(i as int),
        decreases entries.len() - i,
    {
        let op = crate::ops::key_history::entry_put(&entries[i].key, &entries[i]);
        let ghost before = batch_view(ops@);
        ops.push(op);
        proof {
            assert(op@ == puts[i as int]);
            assert(batch_view(ops@) =~= before.push(op@));
            assert(puts.take(i + 1) =~= puts.take(i as int).push(op@));
            assert(before.push(op@) =~= start + puts.take(i + 1));
        }
        i = i + 1;
    }
    assert(puts.take(i as int) =~= puts);
}

fn find_barred(entries: &Vec<KvData>) -> (r: Option<String>)
    ensures
        match r {
            Some(column) => first_barred(entries_view(entries@)) == Some(column@),
            None => first_barred(entries_view(entries@)) is None,
        },
{
    let ghost all = entries_view(entries@);
    let mut found: Option<String> = None;
    let mut i: usize = 0;
    while i < entries.len()
        invariant
            i <= entries.len(),
            all == entries_view(entries@),
            match found {
                Some(column) => first_barred(all.take(i as int)) == Some(column@),
                None => first_barred(all.take(i as int)) is None,
            },
        decreases entries.len() - i,
    {
        proof {
            assert(all.take(i + 1).drop_last() =~= all.take(i as int));
            assert(all.take(i + 1).last() == entries@[i as int]@);
        }
        if let StorageKey::Column { column, .. } = &entries[i].key {
            let allowed = *column == "update_key".to_owned() || *column == "auth_key".to_owned()
                || *column == "status".to_owned();
            if !allowed {
                let earlier = match &found {
                    Some(name) => name_before(column, name),
                    None => true,
                };
                if earlier {
                    found = Some(column.clone());
                }
            }
        }
        i = i + 1;
    }
    assert(all.take(i as int) =~= all);
    found
}

fn check_columns(entries: &Vec<KvData>) -> (r: Result<(), ChangelogError>)
    ensures
        match column_fault(entries_view(entries@)) {
            Some(e) => r matches Err(x) && x@ == e,
            None => r is Ok,
        },
{
    match find_barred(entries) {
        Some(column) => Err(refuse(OpFault::ColumnNotAllowed { column })),
        None => Ok(()),
    }
}

/// The replacement of a user's keys.
pub struct RefreshKeysOp;

impl RefreshKeysOp {
    /// Verifies an entry that asks for a refresh, and gives the writes.
    pub fn extract_and_validate<R: OpReader>(entry: &ChangelogEntry, reader: &mut R, checks: RefreshKeysChecks) -> (r:
        Result<OpVerifyResult, ChangelogError>)
        requires
            refresh_fits(old(reader).answers(), checks, *entry),
        ensures
            final(reader).answers() == old(reader).answers(),
            made(old(reader).log(), final(reader).log(), seq![auth_key_read(entry.uid)], r is Ok),
            match refresh_operation(old(reader).answers(), checks, *entry) {
                Ok(writes) => r matches Ok(result) && result.writes(writes),
                Err(e) => r matches Err(x) && x@ == e,
            },
    {
        let ghost answers = reader.answers();
        let ghost log = reader.log();
        proof {
            lemma_made_none(log, seq![auth_key_read(entry.uid)]);
            lemma_made_one(log, auth_key_read(entry.uid));
        }
        checks.sorted?;
        let parts = checks.parts?;
        if parts.retention.len() > 0 {
            return Err(refuse(OpFault::UnexpectedRetention));
        }
        if parts.key_history.len() == 0 {
            return Err(refuse(OpFault::NoKeyHistory));
        }
        if parts.users.len() == 0 {
            return Err(refuse(OpFault::NoUsers));
        }
        checks.user_access?;
        let history = checks.history;
        history.row_id?;
        let kh_column_keys = history.column_keys?;
        history.structure?;
        let table = checks.users_table?;
        if table != "_users".to_owned() {
            return Err(refuse(OpFault::NotUsersTable { table }));
        }
        check_columns(&parts.users)?;
        let valid_to: i64 = history.valid_to?;
        if valid_to != entry.sig_ref as i64 {
            return Err(refuse(OpFault::ValidToMismatch { valid_to, sig_ref: entry.sig_ref }));
        }
        let valid_from: i64 = history.valid_from?;
        if valid_from > valid_to {
            return Err(refuse(OpFault::RangeBackward { valid_from, valid_to }));
        }
        let old_auth_key = history.old_auth_key?;
        let uid: u32 = entry.uid;
        match read_auth_key(reader, uid, &old_auth_key)? {
            AuthKey::Same => {},
            AuthKey::Absent => {
                return Err(refuse(OpFault::AuthKeyAbsent { uid }));
            },
            AuthKey::Different => {
                return Err(refuse(OpFault::AuthKeyMismatch { uid }));
            },
        }
        let existing_ranges = history.existing_ranges?;
        if let Some(fault) = check_range(&existing_ranges, valid_from, valid_to, uid) {
            return Err(refuse(fault));
        }
        if existing_ranges.len() == 0 && valid_from != 0 {
            return Err(refuse(OpFault::FirstRotation { valid_from, uid }));
        }
        let index_puts = history.index_puts?;
        let counter_put = history.counter_put?;
        let mut ops: Vec<BatchOp> = Vec::new();
        assert(batch_view(ops@) =~= Seq::empty());
        push_entry_puts(&mut ops, &kh_column_keys, &parts.key_history);
        push_own_puts(&mut ops, &parts.users);
        append_ops(&mut ops, index_puts);
        let ghost before = batch_view(ops@);
        ops.push(counter_put);
        proof {
            assert(batch_view(ops@) =~= before + seq![counter_put@]);
            assert(batch_view(ops@) =~= refresh_operation(answers, checks, *entry)->Ok_0);
        }
        Ok(OpVerifyResult::of_writes(ops))
    }
}

} // verus!
