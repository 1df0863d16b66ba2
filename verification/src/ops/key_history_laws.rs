//! What a refresh of keys and the removal of a user are for.

use vstd::prelude::*;

use crate::changelog::{entries_view, ChangelogEntry, KvData, KvView};
use crate::ops::key_history::{
    law_new_range_continues, lemma_meets_none, lemma_last_valid_to, range_fault, HistoryChecks,
};
use crate::ops::names::names_view;
use crate::ops::piece_text_tree::{holds, lemma_put_value, written, Tree};
use crate::ops::refresh_keys_op::{first_barred, refresh_operation, RefreshKeysChecks};
use crate::ops::remove_user_op::{
    covers_columns, named_rows, names_column, removal_operation, RemoveUserChecks,
};
use crate::storage::{Answers, BatchOpView, KeyView, ReadOpView, ValueView};

verus! {

// ---------- histories ----------

/// A range of changes continues earlier ones: it lies behind all of them and right
/// behind one, or starts with the first change if there are none.
pub open spec fn continues(ranges: Seq<(i64, i64)>, from: i64, to: i64) -> bool {
    &&& from <= to
    &&& ranges.len() == 0 ==> from == 0
    &&& forall|i: int| 0 <= i < ranges.len() ==> (#[trigger] ranges[i]).1 < from
    &&& ranges.len() > 0 ==> exists|i: int| 0 <= i < ranges.len() && (#[trigger] ranges[i]).1 + 1 == from
}

/// The tree's key for a user is the one given.
pub open spec fn is_current_key(answers: Answers, uid: u32, key: Seq<u8>) -> bool {
    let cell = KeyView::Column { table: "_users"@, row_id: uid as i64, column: "auth_key"@ };
    answers(ReadOpView::Bytes(cell)) matches Ok(results) && results.len() > 0 && results[0].1
        == ValueView::Raw(key)
}

/// What was found out of the new row of the history lets the range from what the
/// entries say to `valid_to` be added for the user.
pub open spec fn may_be_added(answers: Answers, history: HistoryChecks, uid: u32, valid_to: i64) -> bool {
    &&& history.row_id is Ok
    &&& history.column_keys is Ok
    &&& history.structure is Ok
    &&& history.index_puts is Ok
    &&& history.counter_put is Ok
    &&& history.valid_from matches Ok(valid_from)
    &&& history.existing_ranges matches Ok(ranges)
    &&& history.old_auth_key matches Ok(key)
    &&& continues(ranges@, valid_from, valid_to)
    &&& is_current_key(answers, uid, key@)
}

proof fn lemma_continues(ranges: Seq<(i64, i64)>, from: i64, to: i64, uid: u32)
    requires
        from <= to,
    ensures
        continues(ranges, from, to) <==> range_fault(ranges, from, to, uid) is None && (ranges.len() == 0
            ==> from == 0),
{
    if range_fault(ranges, from, to, uid) is None {
        law_new_range_continues(ranges, from, to, uid);
    }
    if continues(ranges, from, to) {
        lemma_meets_none(ranges, (from, to));
        if ranges.len() > 0 {
            lemma_last_valid_to(ranges);
            let i = choose|i: int| 0 <= i < ranges.len() && (#[trigger] ranges[i]).1 + 1 == from;
        }
    }
}

// ---------- refreshes ----------

/// A key under which a refresh may write for a user.
pub open spec fn may_be_refreshed(key: KeyView) -> bool {
    match key {
        KeyView::Column { column, .. } => column == "update_key"@ || column == "auth_key"@ || column
            == "status"@,
        _ => true,
    }
}

proof fn lemma_none_barred(entries: Seq<KvView>)
    ensures
        first_barred(entries) is None <==> forall|i: int|
            0 <= i < entries.len() ==> may_be_refreshed((#[trigger] entries[i]).key),
    decreases entries.len(),
{
    if entries.len() > 0 {
        let rest = entries.drop_last();
        lemma_none_barred(rest);
        if first_barred(entries) is None {
            assert forall|i: int| 0 <= i < entries.len() implies may_be_refreshed(
                (#[trigger] entries[i]).key,
            ) by {
                if i < rest.len() {
                    assert(may_be_refreshed(rest[i].key));
                }
            }
        } else if first_barred(rest) is Some {
            let i = choose|i: int| 0 <= i < rest.len() && !may_be_refreshed((#[trigger] rest[i]).key);
            assert(!may_be_refreshed(entries[i].key));
        } else {
            assert(!may_be_refreshed(entries[entries.len() - 1].key));
        }
    }
}

/// A refresh is accepted exactly if its entries are in order and make up a row of
/// the history and cells of users that a refresh may change, the author may make
/// changes, the range retired ends at the author's last change and continues the
/// earlier ones, and the key retired is the author's current one.
pub proof fn law_refresh_accepted(answers: Answers, checks: RefreshKeysChecks, entry: ChangelogEntry)
    ensures
        refresh_operation(answers, checks, entry) is Ok <==> {
            &&& checks.sorted is Ok
            &&& checks.user_access is Ok
            &&& checks.parts matches Ok(parts)
            &&& parts.retention.len() == 0
            &&& parts.key_history.len() > 0
            &&& parts.users.len() > 0
            &&& checks.users_table matches Ok(table)
            &&& table@ == "_users"@
            &&& forall|i: int|
                0 <= i < parts.users.len() ==> may_be_refreshed((#[trigger] parts.users@[i]).key@)
            &&& checks.history.valid_to matches Ok(valid_to)
            &&& valid_to == entry.sig_ref
            &&& may_be_added(answers, checks.history, entry.uid, valid_to)
        },
{
    if let Ok(parts) = checks.parts {
        let users = entries_view(parts.users@);
        lemma_none_barred(users);
        assert forall|i: int| 0 <= i < users.len() implies #[trigger] users[i].key == parts.users@[i].key@ by {}
        assert forall|i: int| 0 <= i < parts.users.len() implies (#[trigger] parts.users@[i]).key@ == users[i].key by {}
    }
    if let (Ok(ranges), Ok(from), Ok(to)) = (
        checks.history.existing_ranges,
        checks.history.valid_from,
        checks.history.valid_to,
    ) {
        if from <= to {
            lemma_continues(ranges@, from, to, entry.uid);
        }
    }
}

/// An accepted refresh writes the entry of every cell of the history under the key
/// found for it, then every entry for users under its own key, then the entries of
/// indexes and the counter, and nothing else.
pub proof fn law_refresh_writes(answers: Answers, checks: RefreshKeysChecks, entry: ChangelogEntry)
    requires
        refresh_operation(answers, checks, entry) is Ok,
    ensures
        ({
            let writes = refresh_operation(answers, checks, entry)->Ok_0;
            let history = checks.parts->Ok_0.key_history@;
            let users = checks.parts->Ok_0.users@;
            let keys = checks.history.column_keys->Ok_0@;
            let index = checks.history.index_puts->Ok_0@;
            let n = if keys.len() < history.len() { keys.len() } else { history.len() };
            &&& writes.len() == n + users.len() + index.len() + 1
            &&& forall|i: int|
                0 <= i < n ==> #[trigger] writes[i] == (BatchOpView::Put {
                    key: keys[i]@,
                    value: ValueView::Raw(history[i].value@),
                })
            &&& forall|i: int|
                0 <= i < users.len() ==> writes[n + i] == (BatchOpView::Put {
                    key: (#[trigger] users[i]).key@,
                    value: ValueView::Raw(users[i].value@),
                })
            &&& forall|i: int|
                0 <= i < index.len() ==> writes[n + users.len() + i] == (#[trigger] index[i])@
            &&& writes[(n + users.len() + index.len()) as int] == checks.history.counter_put->Ok_0@
        }),
{
    let history = checks.parts->Ok_0.key_history@;
    let users = checks.parts->Ok_0.users@;
    assert forall|i: int| 0 <= i < history.len() implies #[trigger] entries_view(history)[i].value
        == history[i].value@ by {}
    assert forall|i: int| 0 <= i < users.len() implies #[trigger] entries_view(users)[i].value
        == users[i].value@ by {}
}

/// Writes to the key are made by no part of a refresh or removal but the entries
/// for users.
pub open spec fn apart_from_users(history: HistoryChecks, users: Seq<KvData>) -> bool {
    &&& forall|i: int, j: int|
        0 <= i < users.len() && 0 <= j < history.column_keys->Ok_0.len() ==> (#[trigger] users[i]).key@ != (
        #[trigger] history.column_keys->Ok_0@[j])@
    &&& forall|i: int, j: int|
        0 <= i < users.len() && 0 <= j < history.index_puts->Ok_0.len() ==> (#[trigger] users[i]).key@ != (
        #[trigger] history.index_puts->Ok_0@[j])@.key()
    &&& forall|i: int|
        0 <= i < users.len() ==> (#[trigger] users[i]).key@ != history.counter_put->Ok_0@.key()
}

/// No two entries have the same key.
pub open spec fn keys_differ(entries: Seq<KvData>) -> bool {
    forall|i: int, j: int|
        0 <= i < j < entries.len() ==> (#[trigger] entries[i]).key@ != (#[trigger] entries[j]).key@
}

/// Once an accepted refresh is written, the tree holds the value of every entry for
/// users under that entry's own key: nothing else is written there.
pub proof fn law_refresh_stores_users(
    answers: Answers,
    checks: RefreshKeysChecks,
    entry: ChangelogEntry,
    tree: Tree,
    i: int,
)
    requires
        refresh_operation(answers, checks, entry) is Ok,
        keys_differ(checks.parts->Ok_0.users@),
        apart_from_users(checks.history, checks.parts->Ok_0.users@),
        0 <= i < checks.parts->Ok_0.users.len(),
    ensures
        ({
            let writes = refresh_operation(answers, checks, entry)->Ok_0;
            let user = checks.parts->Ok_0.users@[i];
            holds(written(tree, writes), user.key@, ValueView::Raw(user.value@))
        }),
{
    law_refresh_writes(answers, checks, entry);
    let writes = refresh_operation(answers, checks, entry)->Ok_0;
    let history = checks.parts->Ok_0.key_history@;
    let users = checks.parts->Ok_0.users@;
    let keys = checks.history.column_keys->Ok_0@;
    let index = checks.history.index_puts->Ok_0@;
    let n: int = if keys.len() < history.len() { keys.len() as int } else { history.len() as int };
    let value = ValueView::Raw(users[i].value@);
    let key = users[i].key@;
    assert(writes[n + i].key() == key);
    assert forall|k: int| 0 <= k < writes.len() && (#[trigger] writes[k]).key() == key implies writes[k]
        == (BatchOpView::Put { key, value }) by {
        if k < n {
            assert(users[i].key@ != keys[k]@);
        } else if k < n + users.len() {
            let j = k - n;
            assert(writes[n + j].key() == users[j].key@);
        } else if k < n + users.len() + index.len() {
            let j = k - n - users.len();
            assert(writes[n + users.len() + j] == index[j]@);
        }
    }
    lemma_put_value(tree, writes, key, value);
}

// ---------- removals ----------

/// The entries name cells of one row, and of no other.
pub open spec fn of_one_row(entries: Seq<KvData>) -> bool {
    exists|id: i64| #[trigger] names_row(entries, id) && forall|other: i64| #[trigger] names_row(entries, other) ==> other == id
}

/// One of the entries is for a cell of the row.
pub open spec fn names_row(entries: Seq<KvData>, id: i64) -> bool {
    exists|i: int|
        0 <= i < entries.len() && match (#[trigger] entries[i]).key@ {
            KeyView::Column { row_id, .. } => row_id == id,
            _ => false,
        }
}

/// The columns that the entries name are just those given.
pub open spec fn of_columns(entries: Seq<KvData>, columns: Seq<String>) -> bool {
    forall|name: Seq<char>| #[trigger] names_cell(entries, name) <==> exists|j: int|
        0 <= j < columns.len() && (#[trigger] columns[j])@ == name
}

/// One of the entries is for a cell in the column.
pub open spec fn names_cell(entries: Seq<KvData>, name: Seq<char>) -> bool {
    exists|i: int|
        0 <= i < entries.len() && match (#[trigger] entries[i]).key@ {
            KeyView::Column { column, .. } => column == name,
            _ => false,
        }
}

pub proof fn lemma_named_rows(entries: Seq<KvData>, id: i64)
    ensures
        named_rows(entries_view(entries)).contains(id) <==> names_row(entries, id),
        named_rows(entries_view(entries)).finite(),
    decreases entries.len(),
{
    let view = entries_view(entries);
    if entries.len() > 0 {
        let rest = entries.drop_last();
        assert(view.drop_last() =~= entries_view(rest));
        assert(view.last() == entries.last()@);
        lemma_named_rows(rest, id);
        if names_row(rest, id) {
            let i = choose|i: int|
                0 <= i < rest.len() && match (#[trigger] rest[i]).key@ {
                    KeyView::Column { row_id, .. } => row_id == id,
                    _ => false,
                };
            assert(entries[i] == rest[i]);
        }
        if names_row(entries, id) {
            let i = choose|i: int|
                0 <= i < entries.len() && match (#[trigger] entries[i]).key@ {
                    KeyView::Column { row_id, .. } => row_id == id,
                    _ => false,
                };
            if i < rest.len() {
                assert(rest[i] == entries[i]);
            }
        }
        assert(entries[entries.len() - 1] == entries.last());
    }
}

pub proof fn lemma_one_row(entries: Seq<KvData>)
    ensures
        named_rows(entries_view(entries)).len() == 1 <==> of_one_row(entries),
{
    let rows = named_rows(entries_view(entries));
    lemma_named_rows(entries, 0);
    assert forall|id: i64| #[trigger] rows.contains(id) <==> names_row(entries, id) by {
        lemma_named_rows(entries, id);
    }
    if rows.len() == 1 {
        let id = rows.choose();
        Set::lemma_is_singleton(rows);
        assert(rows.contains(id));
        assert(names_row(entries, id));
        assert forall|other: i64| #[trigger] names_row(entries, other) implies other == id by {
            assert(rows.contains(other));
        }
    }
    if of_one_row(entries) {
        let id = choose|id: i64| #[trigger]
            names_row(entries, id) && forall|other: i64| #[trigger] names_row(entries, other) ==> other == id;
        assert(rows =~= Set::empty().insert(id)) by {
            assert forall|other: i64| rows.contains(other) <==> other == id by {
                assert(rows.contains(other) <==> names_row(entries, other));
            }
        }
    }
}

pub proof fn lemma_columns(entries: Seq<KvData>, columns: Seq<String>)
    ensures
        covers_columns(entries_view(entries), columns) <==> of_columns(entries, columns),
{
    let view = entries_view(entries);
    assert forall|name: Seq<char>| #[trigger] names_column(view, name) <==> names_cell(entries, name) by {
        if names_column(view, name) {
            let i = choose|i: int|
                0 <= i < view.len() && crate::ops::remove_user_op::is_column(#[trigger] view[i].key, name);
            assert(entries[i].key@ == view[i].key);
        }
        if names_cell(entries, name) {
            let i = choose|i: int|
                0 <= i < entries.len() && match (#[trigger] entries[i]).key@ {
                    KeyView::Column { column, .. } => column == name,
                    _ => false,
                };
            assert(crate::ops::remove_user_op::is_column(view[i].key, name));
        }
    }
    assert forall|name: Seq<char>| #[trigger] names_cell(entries, name) <==> names_column(view, name) by {
        assert(names_column(view, name) <==> names_cell(entries, name));
    }
    if of_columns(entries, columns) {
        assert forall|name: Seq<char>| #[trigger] names_column(view, name) == crate::ops::names_include(columns, name) by {
            assert(names_cell(entries, name) <==> names_column(view, name));
        }
    }
    if covers_columns(view, columns) {
        assert forall|name: Seq<char>| #[trigger] names_cell(entries, name) <==> exists|j: int|
            0 <= j < columns.len() && (#[trigger] columns[j])@ == name by {
            assert(names_column(view, name) == crate::ops::names_include(columns, name));
        }
    }
}

/// A removal is accepted exactly if there is a change before it, its entries delete
/// all cells of one row of the table of users, the author may make changes, the
/// range that ends at that change continues the user's earlier ones, the key retired
/// is the user's current one, and what is kept of the user fills whole rows.
pub proof fn law_removal_accepted(answers: Answers, checks: RemoveUserChecks, current_change_id: u64)
    ensures
        removal_operation(answers, checks, current_change_id) is Ok <==> {
            &&& current_change_id > 0
            &&& checks.user_access is Ok
            &&& checks.parts matches Ok(parts)
            &&& parts.key_history.len() > 0
            &&& parts.users.len() > 0
            &&& checks.user_row matches Ok((table, row_id))
            &&& table@ == "_users"@
            &&& checks.user_columns matches Ok(columns)
            &&& of_one_row(parts.users@)
            &&& of_columns(parts.users@, columns@)
            &&& may_be_added(
                answers,
                checks.history,
                row_id as u32,
                (current_change_id - 1) as u64 as i64,
            )
            &&& parts.retention.len() > 0 ==> {
                &&& checks.retention.columns matches Ok(kept)
                &&& kept.len() > 0
                &&& of_columns(parts.retention@, kept@)
                &&& parts.retention@.len() % names_view(kept@).to_set().len() == 0
                &&& checks.retention.next_id is Ok
                &&& checks.retention.column_keys is Ok
                &&& checks.retention.index_puts is Ok
                &&& checks.retention.counter_put is Ok
            }
        },
{
    if let Ok(parts) = checks.parts {
        lemma_one_row(parts.users@);
        if let Ok(columns) = checks.user_columns {
            lemma_columns(parts.users@, columns@);
        }
        if let Ok(columns) = checks.retention.columns {
            lemma_columns(parts.retention@, columns@);
        }
    }
    if let (Ok(ranges), Ok(from), Ok((table, row_id))) = (
        checks.history.existing_ranges,
        checks.history.valid_from,
        checks.user_row,
    ) {
        let to = (current_change_id - 1) as u64 as i64;
        if from <= to {
            lemma_continues(ranges@, from, to, row_id as u32);
        }
    }
}

/// An accepted removal deletes what its entries for users name, writes a row of the
/// history with the bytes of its entries but for the end of the range, which is the
/// change before, and then what is kept of the user with the bytes of its entries.
pub proof fn law_removal_writes(answers: Answers, checks: RemoveUserChecks, current_change_id: u64)
    requires
        removal_operation(answers, checks, current_change_id) is Ok,
    ensures
        ({
            let writes = removal_operation(answers, checks, current_change_id)->Ok_0;
            let users = checks.parts->Ok_0.users@;
            let history = checks.parts->Ok_0.key_history@;
            let kept = checks.parts->Ok_0.retention@;
            let keys = checks.history.column_keys->Ok_0@;
            let index = checks.history.index_puts->Ok_0@;
            let kept_keys = checks.retention.column_keys->Ok_0@;
            let kept_index = checks.retention.index_puts->Ok_0@;
            let n = if keys.len() < history.len() { keys.len() } else { history.len() };
            let m = if kept_keys.len() < kept.len() { kept_keys.len() } else { kept.len() };
            let first = users.len() + n + index.len() + 1;
            &&& forall|i: int|
                0 <= i < users.len() ==> writes[i] == (BatchOpView::Delete { key: (#[trigger] users[i]).key@ })
            &&& forall|i: int|
                0 <= i < n ==> writes[users.len() + i] == (BatchOpView::Put {
                    key: (#[trigger] keys[i])@,
                    value: match keys[i]@ {
                        KeyView::Column { column, .. } if column == "valid_to_change_id"@ => ValueView::Int(
                            (current_change_id - 1) as u64 as i64,
                        ),
                        _ => ValueView::Raw(history[i].value@),
                    },
                })
            &&& forall|i: int|
                0 <= i < index.len() ==> writes[users.len() + n + i] == (#[trigger] index[i])@
            &&& writes[(users.len() + n + index.len()) as int] == checks.history.counter_put->Ok_0@
            &&& kept.len() == 0 ==> writes.len() == first
            &&& kept.len() > 0 ==> {
                &&& writes.len() == first + m + kept_index.len() + 1
                &&& forall|i: int|
                    0 <= i < m ==> writes[first + i] == (BatchOpView::Put {
                        key: (#[trigger] kept_keys[i])@,
                        value: ValueView::Raw(kept[i].value@),
                    })
                &&& forall|i: int|
                    0 <= i < kept_index.len() ==> writes[first + m + i] == (#[trigger] kept_index[i])@
                &&& writes[(first + m + kept_index.len()) as int] == checks.retention.counter_put->Ok_0@
            }
        }),
{
    let history = checks.parts->Ok_0.key_history@;
    let users = checks.parts->Ok_0.users@;
    let kept = checks.parts->Ok_0.retention@;
    assert forall|i: int| 0 <= i < history.len() implies #[trigger] entries_view(history)[i].value
        == history[i].value@ by {}
    assert forall|i: int| 0 <= i < users.len() implies #[trigger] entries_view(users)[i].key
        == users[i].key@ by {}
    assert forall|i: int| 0 <= i < kept.len() implies #[trigger] entries_view(kept)[i].value
        == kept[i].value@ by {}
}

} // verus!
