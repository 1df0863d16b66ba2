//! What is said of refreshes and removals that are refused.

use vstd::prelude::*;

use crate::changelog::{entries_view, ChangelogEntry, ErrorView, KvData};
use crate::faults::{OpFaultView, OpName};
use crate::ops::key_history::{
    last_valid_to, lemma_not_overlapped, lemma_last_valid_to, overlapped, range_fault, HistoryChecks,
};
use crate::ops::key_history_laws::{
    is_current_key, lemma_columns, lemma_named_rows, lemma_one_row, names_cell, names_row,
    of_columns, of_one_row,
};
use crate::ops::names::{before_from, comes_before, insert_name, law_name_order, names_view};
use crate::ops::refresh_keys_op::{barred_column, first_barred, refresh_operation, RefreshKeysChecks};
use crate::ops::remove_user_op::{
    missing_columns, named_rows, names_column, removal_operation, RemoveUserChecks,
};
use crate::ops::update_op_laws::{lemma_before_irreflexive, lemma_before_total, lemma_before_transitive};
use crate::ops::update_plan_laws::is_named;
use crate::storage::{Answers, KeyView, ReadOpView, ValueView};

verus! {

// ---------- what is found out elsewhere ----------

/// The check failed with the error.
pub open spec fn fails<T>(check: Result<T, crate::changelog::ChangelogError>, e: ErrorView) -> bool {
    check matches Err(x) && x@ == e
}

/// What was found out of the new row of the history failed with the error.
pub open spec fn history_fails(history: HistoryChecks, e: ErrorView) -> bool {
    ||| fails(history.row_id, e)
    ||| fails(history.column_keys, e)
    ||| fails(history.structure, e)
    ||| fails(history.valid_from, e)
    ||| fails(history.valid_to, e)
    ||| fails(history.old_auth_key, e)
    ||| fails(history.existing_ranges, e)
    ||| fails(history.index_puts, e)
    ||| fails(history.counter_put, e)
}

/// The tree's answer on the key of a user.
pub open spec fn key_answer(answers: Answers, uid: u32) -> Result<Seq<(KeyView, ValueView)>, crate::changelog::ChangelogError> {
    answers(
        ReadOpView::Bytes(KeyView::Column { table: "_users"@, row_id: uid as i64, column: "auth_key"@ }),
    )
}

// ---------- ranges ----------

/// Two ranges of changes have one in common.
pub open spec fn share_change(a: (i64, i64), b: (i64, i64)) -> bool {
    exists|change: int| #[trigger] is_in(a, change) && is_in(b, change)
}

pub open spec fn is_in(range: (i64, i64), change: int) -> bool {
    range.0 <= change <= range.1
}

/// What is said of a range is so: which earlier one shares a change with it, as the
/// first that does, or after which last change it should start.
pub open spec fn range_is_so(ranges: Seq<(i64, i64)>, from: i64, to: i64, user: u32, fault: OpFaultView) -> bool {
    match fault {
        OpFaultView::RangeOverlap { valid_from, valid_to, prev_from, prev_to, uid } => {
            &&& (valid_from, valid_to, uid) == (from, to, user)
            &&& exists|i: int| ranges[i] == (prev_from, prev_to) && #[trigger] is_first_met(ranges, i, from, to)
            &&& prev_from <= prev_to ==> share_change((from, to), (prev_from, prev_to))
        },
        OpFaultView::RangeGap { valid_from, expected_from, uid } => {
            &&& (valid_from, uid) == (from, user)
            &&& exists|i: int|
                0 <= i < ranges.len() && (#[trigger] ranges[i]).1 + 1 != from && expected_from == (ranges[i].1
                    + 1) as i64 && is_latest(ranges, ranges[i].1)
            &&& forall|k: int| 0 <= k < ranges.len() ==> !is_met(#[trigger] ranges[k], from, to)
        },
        _ => false,
    }
}

/// A range starts no later than the other ends, and ends no earlier than it starts.
pub open spec fn is_met(range: (i64, i64), from: i64, to: i64) -> bool {
    range.0 <= to && from <= range.1
}

/// The range at the position is met, and none before it is.
pub open spec fn is_first_met(ranges: Seq<(i64, i64)>, i: int, from: i64, to: i64) -> bool {
    &&& 0 <= i < ranges.len()
    &&& is_met(ranges[i], from, to)
    &&& forall|k: int| 0 <= k < i ==> !is_met(#[trigger] ranges[k], from, to)
}

/// No range ends after the change.
pub open spec fn is_latest(ranges: Seq<(i64, i64)>, change: i64) -> bool {
    forall|k: int| 0 <= k < ranges.len() ==> (#[trigger] ranges[k]).1 <= change
}

proof fn lemma_overlapped(ranges: Seq<(i64, i64)>, from: i64, to: i64)
    ensures
        overlapped(ranges, (from, to)) matches Some(found) ==> exists|i: int|
            ranges[i] == found && #[trigger] is_first_met(ranges, i, from, to),
    decreases ranges.len(),
{
    if ranges.len() > 0 {
        let rest = ranges.drop_last();
        let n = ranges.len() - 1;
        lemma_overlapped(rest, from, to);
        assert(ranges[n] == ranges.last());
        if let Some(found) = overlapped(rest, (from, to)) {
            let i = choose|i: int| rest[i] == found && #[trigger] is_first_met(rest, i, from, to);
            assert forall|k: int| 0 <= k < i implies !is_met(#[trigger] ranges[k], from, to) by {
                assert(rest[k] == ranges[k]);
            }
            assert(is_first_met(ranges, i, from, to));
        } else {
            lemma_not_overlapped(rest, (from, to));
            assert forall|k: int| 0 <= k < n implies !is_met(#[trigger] ranges[k], from, to) by {
                assert(rest[k] == ranges[k]);
            }
            if overlapped(ranges, (from, to)) is Some {
                assert(is_first_met(ranges, n, from, to));
            }
        }
    }
}

proof fn lemma_range_refused(ranges: Seq<(i64, i64)>, from: i64, to: i64, uid: u32)
    requires
        from <= to,
    ensures
        range_fault(ranges, from, to, uid) matches Some(fault) ==> range_is_so(ranges, from, to, uid, fault),
{
    lemma_overlapped(ranges, from, to);
    if let Some((prev_from, prev_to)) = overlapped(ranges, (from, to)) {
        if prev_from <= prev_to {
            let change: int = if from < prev_from { prev_from as int } else { from as int };
            assert(is_in((from, to), change) && is_in((prev_from, prev_to), change));
        }
    } else if ranges.len() > 0 && from != last_valid_to(ranges) + 1 {
        lemma_last_valid_to(ranges);
        lemma_not_overlapped(ranges, (from, to));
        let i = choose|i: int| 0 <= i < ranges.len() && (#[trigger] ranges[i]).1 == last_valid_to(ranges);
        assert(is_latest(ranges, ranges[i].1));
    }
}

/// What is said of the new row of a history is so.
pub open spec fn row_is_so(
    answers: Answers,
    history: HistoryChecks,
    user: u32,
    to: i64,
    fault: OpFaultView,
) -> bool {
    match fault {
        OpFaultView::RangeBackward { valid_from, valid_to } => {
            &&& history.valid_from matches Ok(from)
            &&& (valid_from, valid_to) == (from, to)
            &&& valid_from > valid_to
        },
        OpFaultView::AuthKeyAbsent { uid } | OpFaultView::DeletedAuthKeyAbsent { uid } => {
            &&& uid == user
            &&& key_answer(answers, user) matches Ok(results)
            &&& results.len() == 0
        },
        OpFaultView::AuthKeyMismatch { uid } | OpFaultView::DeletedAuthKeyMismatch { uid } => {
            &&& uid == user
            &&& history.old_auth_key matches Ok(key)
            &&& key_answer(answers, user) matches Ok(results)
            &&& results.len() > 0
            &&& !is_current_key(answers, user, key@)
        },
        OpFaultView::FirstRotation { valid_from, uid } | OpFaultView::FirstHistory { valid_from, uid } => {
            &&& uid == user
            &&& history.valid_from matches Ok(from)
            &&& valid_from == from
            &&& valid_from != 0
            &&& history.existing_ranges matches Ok(ranges)
            &&& ranges.len() == 0
        },
        _ => {
            &&& history.valid_from matches Ok(from)
            &&& history.existing_ranges matches Ok(ranges)
            &&& range_is_so(ranges@, from, to, user, fault)
        },
    }
}

// ---------- refreshes ----------

/// The column is one that a refresh may not change and that an entry is for, and no
/// other such column comes before it.
pub open spec fn first_not_allowed(entries: Seq<KvData>, name: Seq<char>) -> bool {
    &&& is_not_allowed(entries, name)
    &&& forall|other: Seq<char>| #[trigger] is_not_allowed(entries, other) ==> !comes_before(other, name)
}

pub open spec fn is_not_allowed(entries: Seq<KvData>, name: Seq<char>) -> bool {
    names_cell(entries, name) && name != "update_key"@ && name != "auth_key"@ && name != "status"@
}

proof fn lemma_first_not_allowed(entries: Seq<KvData>)
    ensures
        first_barred(entries_view(entries)) matches Some(name) ==> {
            &&& is_not_allowed(entries, name)
            &&& forall|other: Seq<char>| #[trigger]
                is_not_allowed(entries, other) ==> !before_from(other, name, 0)
        },
        first_barred(entries_view(entries)) is None ==> forall|other: Seq<char>| !(#[trigger] is_not_allowed(
            entries,
            other,
        )),
    decreases entries.len(),
{
    let view = entries_view(entries);
    if entries.len() > 0 {
        let rest = entries.drop_last();
        let last = entries.last();
        assert(view.drop_last() =~= entries_view(rest));
        assert(view.last() == last@);
        assert(entries[entries.len() - 1] == last);
        lemma_first_not_allowed(rest);
        assert forall|other: Seq<char>| #[trigger] is_not_allowed(entries, other) <==> is_not_allowed(rest, other)
            || barred_column(last.key@) == Some(other) by {
            if names_cell(rest, other) {
                let i = choose|i: int|
                    0 <= i < rest.len() && match (#[trigger] rest[i]).key@ {
                        KeyView::Column { column, .. } => column == other,
                        _ => false,
                    };
                assert(entries[i] == rest[i]);
            }
            if names_cell(entries, other) {
                let i = choose|i: int|
                    0 <= i < entries.len() && match (#[trigger] entries[i]).key@ {
                        KeyView::Column { column, .. } => column == other,
                        _ => false,
                    };
                if i < rest.len() {
                    assert(rest[i] == entries[i]);
                }
            }
        }
        if let Some(name) = first_barred(view) {
            lemma_before_irreflexive(name, 0);
            if let (Some(found), Some(added)) = (first_barred(entries_view(rest)), barred_column(last.key@)) {
                assert forall|other: Seq<char>| #[trigger] is_not_allowed(entries, other) implies !before_from(
                    other,
                    name,
                    0,
                ) by {
                    if name == added && name != found && before_from(other, added, 0) {
                        lemma_before_transitive(other, added, found, 0);
                    }
                }
            }
        }
    }
}

/// What is said of a refresh is so.
pub open spec fn refresh_is_so(
    answers: Answers,
    checks: RefreshKeysChecks,
    entry: ChangelogEntry,
    fault: OpFaultView,
) -> bool {
    &&& checks.parts matches Ok(parts)
    &&& match fault {
        OpFaultView::UnexpectedRetention => parts.retention.len() > 0,
        OpFaultView::NoKeyHistory => parts.key_history.len() == 0,
        OpFaultView::NoUsers => parts.users.len() == 0,
        OpFaultView::NotUsersTable { table } => table != "_users"@ && (checks.users_table matches Ok(found) && found@
            == table),
        OpFaultView::ColumnNotAllowed { column } => first_not_allowed(parts.users@, column),
        OpFaultView::ValidToMismatch { valid_to, sig_ref } => {
            &&& checks.history.valid_to matches Ok(found)
            &&& valid_to == found
            &&& sig_ref == entry.sig_ref
            &&& valid_to != sig_ref
        },
        OpFaultView::DeletedAuthKeyAbsent { .. } => false,
        OpFaultView::DeletedAuthKeyMismatch { .. } => false,
        OpFaultView::FirstHistory { .. } => false,
        _ => row_is_so(answers, checks.history, entry.uid, entry.sig_ref as i64, fault),
    }
}

/// Of a refresh that is refused, a check that failed says what it says itself, or the
/// tree why it has no answer. Else it is said what is wrong with it, and it is so.
pub proof fn law_refresh_refused(answers: Answers, checks: RefreshKeysChecks, entry: ChangelogEntry)
    ensures
        refresh_operation(answers, checks, entry) matches Err(e) ==> {
            ||| fails(checks.sorted, e)
            ||| fails(checks.parts, e)
            ||| fails(checks.user_access, e)
            ||| fails(checks.users_table, e)
            ||| history_fails(checks.history, e)
            ||| fails(key_answer(answers, entry.uid), e)
            ||| (e matches ErrorView::Refused(op, fault) && op == OpName::RefreshKeys && refresh_is_so(
                answers,
                checks,
                entry,
                fault,
            ))
        },
{
    if let Ok(parts) = checks.parts {
        lemma_first_not_allowed(parts.users@);
        if let Some(name) = first_barred(entries_view(parts.users@)) {
            assert forall|other: Seq<char>| #[trigger]
                is_not_allowed(parts.users@, other) implies !comes_before(other, name) by {
                law_name_order(other, name);
            }
            assert(first_not_allowed(parts.users@, name));
        }
    }
    if let (Ok(ranges), Ok(from), Ok(to)) = (
        checks.history.existing_ranges,
        checks.history.valid_from,
        checks.history.valid_to,
    ) {
        if from <= to {
            lemma_range_refused(ranges@, from, to, entry.uid);
        }
    }
}

// ---------- removals ----------

/// The names are those of the columns that no entry is for, in order, each once.
pub open spec fn are_missing(entries: Seq<KvData>, columns: Seq<String>, names: Seq<Seq<char>>) -> bool {
    &&& forall|i: int, j: int|
        0 <= i < j < names.len() ==> comes_before(#[trigger] names[i], #[trigger] names[j])
    &&& forall|name: Seq<char>| #[trigger]
        names.contains(name) <==> is_named(columns, name) && !names_cell(entries, name)
}

spec fn in_order(names: Seq<Seq<char>>) -> bool {
    forall|i: int, j: int|
        0 <= i < j < names.len() ==> before_from(#[trigger] names[i], #[trigger] names[j], 0)
}

proof fn lemma_insert_name(names: Seq<Seq<char>>, name: Seq<char>)
    requires
        in_order(names),
    ensures
        in_order(insert_name(names, name)),
        forall|other: Seq<char>| #[trigger]
            insert_name(names, name).contains(other) <==> names.contains(other) || other == name,
    decreases names.len(),
{
    let all = insert_name(names, name);
    if names.len() == 0 || before_from(names.last(), name, 0) {
        assert forall|i: int, j: int| 0 <= i < j < all.len() implies before_from(
            #[trigger] all[i],
            #[trigger] all[j],
            0,
        ) by {
            if j == names.len() && i < names.len() - 1 {
                assert(names.last() == names[names.len() - 1]);
                lemma_before_transitive(names[i], names.last(), name, 0);
            }
        }
        assert forall|other: Seq<char>| #[trigger] all.contains(other) <==> names.contains(other) || other == name by {
            if names.contains(other) {
                assert(all[names.index_of(other)] == other);
            }
            assert(all[names.len() as int] == name);
        }
    } else if names.last() == name {
        assert(names[names.len() - 1] == name);
    } else {
        let rest = names.drop_last();
        let last = names.last();
        let inner = insert_name(rest, name);
        assert(names[names.len() - 1] == last);
        assert forall|i: int, j: int| 0 <= i < j < rest.len() implies before_from(
            #[trigger] rest[i],
            #[trigger] rest[j],
            0,
        ) by {
            assert(rest[i] == names[i] && rest[j] == names[j]);
        }
        lemma_insert_name(rest, name);
        lemma_before_total(last, name, 0);
        assert(all == inner.push(last));
        assert forall|i: int, j: int| 0 <= i < j < all.len() implies before_from(
            #[trigger] all[i],
            #[trigger] all[j],
            0,
        ) by {
            if j == inner.len() {
                assert(inner.contains(inner[i]));
                if inner[i] != name {
                    let k = rest.index_of(inner[i]);
                    assert(names[k] == inner[i]);
                    assert(before_from(names[k], names[names.len() - 1], 0));
                }
            }
        }
        assert forall|other: Seq<char>| #[trigger] all.contains(other) <==> names.contains(other) || other == name by {
            if all.contains(other) {
                let k = all.index_of(other);
                if k < inner.len() {
                    assert(inner[k] == other);
                    assert(inner.contains(other));
                    if rest.contains(other) {
                        assert(names[rest.index_of(other)] == other);
                    }
                }
            }
            if names.contains(other) {
                let k = names.index_of(other);
                if k < rest.len() {
                    assert(rest[k] == other);
                    assert(inner.contains(other));
                    assert(all[inner.index_of(other)] == other);
                } else {
                    assert(all[inner.len() as int] == other);
                }
            }
            if other == name {
                assert(inner.contains(name));
                assert(all[inner.index_of(name)] == name);
            }
        }
    }
}

proof fn lemma_missing(entries: Seq<KvData>, columns: Seq<String>)
    ensures
        in_order(missing_columns(entries_view(entries), columns)),
        forall|name: Seq<char>| #[trigger]
            missing_columns(entries_view(entries), columns).contains(name) <==> is_named(columns, name) && !names_cell(
                entries,
                name,
            ),
    decreases columns.len(),
{
    let view = entries_view(entries);
    let all = missing_columns(view, columns);
    if columns.len() > 0 {
        let rest = columns.drop_last();
        let last = columns.last();
        lemma_missing(entries, rest);
        lemma_insert_name(missing_columns(view, rest), last@);
        lemma_names_cell(entries, last@);
        assert(columns[columns.len() - 1] == last);
        assert forall|name: Seq<char>| #[trigger] all.contains(name) <==> is_named(columns, name) && !names_cell(
            entries,
            name,
        ) by {
            if is_named(rest, name) {
                let j = choose|j: int| 0 <= j < rest.len() && (#[trigger] rest[j])@ == name;
                assert(columns[j]@ == name);
            }
            if is_named(columns, name) {
                let j = choose|j: int| 0 <= j < columns.len() && (#[trigger] columns[j])@ == name;
                if j < rest.len() {
                    assert(rest[j]@ == name);
                }
            }
            assert(missing_columns(view, rest).contains(name) <==> is_named(rest, name) && !names_cell(entries, name));
        }
    }
}

proof fn lemma_names_cell(entries: Seq<KvData>, name: Seq<char>)
    ensures
        names_column(entries_view(entries), name) <==> names_cell(entries, name),
{
    let view = entries_view(entries);
    if names_column(view, name) {
        let i = choose|i: int|
            0 <= i < view.len() && crate::ops::remove_user_op::is_column(#[trigger] view[i].key, name);
        assert(entries[i].key@ == view[i].key);
    }
    if names_cell(entries, name) {
        let i = choose|i: int|
            0 <= i < entries.len() && match (#[trigger] entries[i]).key@ {
                KeyView::Column { column, .. } => column == name,
                _ => false,
            };
        assert(crate::ops::remove_user_op::is_column(view[i].key, name));
    }
}

proof fn lemma_are_missing(entries: Seq<KvData>, columns: Seq<String>)
    ensures
        are_missing(entries, columns, missing_columns(entries_view(entries), columns)),
{
    let names = missing_columns(entries_view(entries), columns);
    lemma_missing(entries, columns);
    assert forall|i: int, j: int| 0 <= i < j < names.len() implies comes_before(
        #[trigger] names[i],
        #[trigger] names[j],
    ) by {
        law_name_order(names[i], names[j]);
    }
}

/// The rows that the entries are for.
pub open spec fn rows_named(entries: Seq<KvData>) -> Set<i64> {
    Set::new(|id: i64| names_row(entries, id))
}

/// What is said of a removal is so.
pub open spec fn removal_is_so(
    answers: Answers,
    checks: RemoveUserChecks,
    current_change_id: u64,
    fault: OpFaultView,
) -> bool {
    &&& checks.parts matches Ok(parts)
    &&& match fault {
        OpFaultView::NoKeyHistory => parts.key_history.len() == 0,
        OpFaultView::NoUsers => parts.users.len() == 0,
        OpFaultView::ChangeIdZero => current_change_id == 0,
        OpFaultView::UserTable { table } => table != "_users"@ && (checks.user_row matches Ok((found, _)) && found@
            == table),
        OpFaultView::DeletedRows { count } => !of_one_row(parts.users@) && count == rows_named(
            parts.users@,
        ).len() as usize,
        OpFaultView::MissingColumns { row_id, missing } => {
            &&& names_row(parts.users@, row_id)
            &&& checks.user_columns matches Ok(columns)
            &&& !of_columns(parts.users@, columns@)
            &&& are_missing(parts.users@, columns@, missing)
        },
        OpFaultView::RetentionColumns { missing } => {
            &&& checks.retention.columns matches Ok(columns)
            &&& !of_columns(parts.retention@, columns@)
            &&& are_missing(parts.retention@, columns@, missing)
        },
        OpFaultView::RetentionNoColumns => {
            &&& parts.retention.len() > 0
            &&& checks.retention.columns matches Ok(columns)
            &&& columns.len() == 0
        },
        OpFaultView::RetentionCount { count, columns: n } => {
            &&& checks.retention.columns matches Ok(columns)
            &&& count == parts.retention@.len() as usize
            &&& n == names_view(columns@).to_set().len() as usize
            &&& parts.retention@.len() % names_view(columns@).to_set().len() != 0
        },
        OpFaultView::AuthKeyAbsent { .. } => false,
        OpFaultView::AuthKeyMismatch { .. } => false,
        OpFaultView::FirstRotation { .. } => false,
        _ => {
            &&& checks.user_row matches Ok((_, row_id))
            &&& row_is_so(
                answers,
                checks.history,
                row_id as u32,
                (current_change_id - 1) as u64 as i64,
                fault,
            )
        },
    }
}

/// Of a removal that is refused, a check that failed says what it says itself, or the
/// tree why it has no answer. Else it is said what is wrong with it, and it is so.
pub proof fn law_removal_refused(answers: Answers, checks: RemoveUserChecks, current_change_id: u64)
    ensures
        removal_operation(answers, checks, current_change_id) matches Err(e) ==> {
            ||| fails(checks.parts, e)
            ||| fails(checks.user_row, e)
            ||| fails(checks.user_access, e)
            ||| fails(checks.user_columns, e)
            ||| history_fails(checks.history, e)
            ||| fails(checks.retention.columns, e)
            ||| fails(checks.retention.next_id, e)
            ||| fails(checks.retention.column_keys, e)
            ||| fails(checks.retention.index_puts, e)
            ||| fails(checks.retention.counter_put, e)
            ||| (checks.user_row matches Ok((_, row_id)) && fails(key_answer(answers, row_id as u32), e))
            ||| (e matches ErrorView::Refused(op, fault) && op == OpName::RemoveUser && removal_is_so(
                answers,
                checks,
                current_change_id,
                fault,
            ))
        },
{
    if let Ok(parts) = checks.parts {
        let rows = named_rows(entries_view(parts.users@));
        lemma_one_row(parts.users@);
        assert forall|id: i64| #[trigger] rows.contains(id) <==> names_row(parts.users@, id) by {
            lemma_named_rows(parts.users@, id);
        }
        assert(rows =~= rows_named(parts.users@));
        if rows.len() == 1 {
            lemma_named_rows(parts.users@, 0);
            assert(rows.contains(rows.choose()));
        }
        if let Ok(columns) = checks.user_columns {
            lemma_columns(parts.users@, columns@);
            lemma_are_missing(parts.users@, columns@);
        }
        if let Ok(columns) = checks.retention.columns {
            lemma_columns(parts.retention@, columns@);
            lemma_are_missing(parts.retention@, columns@);
        }
    }
    if let (Ok(ranges), Ok(from), Ok((_, row_id))) = (
        checks.history.existing_ranges,
        checks.history.valid_from,
        checks.user_row,
    ) {
        let to = (current_change_id - 1) as u64 as i64;
        if from <= to {
            lemma_range_refused(ranges@, from, to, row_id as u32);
        }
    }
}

} // verus!
