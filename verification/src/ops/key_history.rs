//! The history of users' keys: which key was valid for which changes.
//!
//! A change that retires a key adds a row that says from which change to which
//! it was valid. The rows of a user leave no gap and do not overlap.

use vstd::prelude::*;

use crate::changelog::{entries_view, ChangelogError, ErrorView, KvData, KvView};
use crate::faults::{OpFault, OpFaultView};
use crate::storage::{
    batch_view, clone_bytes, clone_key, same_bytes, Answers, BatchOp, BatchOpView, KeyView, OpReader,
    ReadOp, ReadOpView, StorageKey, StoredValue, ValueView,
};

verus! {

/// The entries of a change, by the table that they are for.
#[derive(Clone, Debug, PartialEq, Eq)]
pub struct CompositeEntry {
    pub key_history: Vec<KvData>,
    pub retention: Vec<KvData>,
    pub users: Vec<KvData>,
}

/// What is found out, outside the library, about the row that a change adds to
/// the history.
#[derive(Debug)]
pub struct HistoryChecks {
    /// The row's id.
    pub row_id: Result<i64, ChangelogError>,
    /// The keys of the row's cells, in the order of the entries.
    pub column_keys: Result<Vec<StorageKey>, ChangelogError>,
    /// Whether the entries make up one row for the user.
    pub structure: Result<(), ChangelogError>,
    /// What the entries say.
    pub valid_from: Result<i64, ChangelogError>,
    pub valid_to: Result<i64, ChangelogError>,
    pub old_auth_key: Result<Vec<u8>, ChangelogError>,
    /// The ranges of changes that the user's earlier keys were valid for.
    pub existing_ranges: Result<Vec<(i64, i64)>, ChangelogError>,
    /// The writes to indexes and to the counter of rows.
    pub index_puts: Result<Vec<BatchOp>, ChangelogError>,
    pub counter_put: Result<BatchOp, ChangelogError>,
}

// ---------- ranges ----------

pub open spec fn ranges_meet(a: (i64, i64), b: (i64, i64)) -> bool {
    a.0 <= b.1 && b.0 <= a.1
}

/// The first of the earlier ranges that a range overlaps.
pub open spec fn overlapped(ranges: Seq<(i64, i64)>, range: (i64, i64)) -> Option<(i64, i64)>
    decreases ranges.len(),
{
    if ranges.len() == 0 {
        None
    } else {
        match overlapped(ranges.drop_last(), range) {
            Some(r) => Some(r),
            None => if ranges_meet(range, ranges.last()) {
                Some(ranges.last())
            } else {
                None
            },
        }
    }
}

/// The last change that an earlier range reaches.
pub open spec fn last_valid_to(ranges: Seq<(i64, i64)>) -> int
    recommends
        ranges.len() > 0,
    decreases ranges.len(),
{
    if ranges.len() <= 1 {
        ranges[0].1 as int
    } else if last_valid_to(ranges.drop_last()) < ranges.last().1 {
        ranges.last().1 as int
    } else {
        last_valid_to(ranges.drop_last())
    }
}

/// What is wrong with a new range, if anything: it must not overlap an earlier
/// one, and start where they end.
pub open spec fn range_fault(ranges: Seq<(i64, i64)>, valid_from: i64, valid_to: i64, uid: u32) -> Option<
    OpFaultView,
> {
    match overlapped(ranges, (valid_from, valid_to)) {
        Some((prev_from, prev_to)) => Some(
            OpFaultView::RangeOverlap { valid_from, valid_to, prev_from, prev_to, uid },
        ),
        None => if ranges.len() > 0 && valid_from != last_valid_to(ranges) + 1 {
            Some(
                OpFaultView::RangeGap {
                    valid_from,
                    expected_from: (last_valid_to(ranges) + 1) as i64,
                    uid,
                },
            )
        } else {
            None
        },
    }
}

/// Where a new range overlaps no earlier one, there is a change after the last
/// one that they reach.
pub open spec fn next_change_fits(ranges: Seq<(i64, i64)>, valid_from: i64, valid_to: i64) -> bool {
    overlapped(ranges, (valid_from, valid_to)) is None && ranges.len() > 0 ==> last_valid_to(ranges)
        < i64::MAX
}

/// A range that passes overlaps no earlier one, and starts right after the last.
pub proof fn law_new_range_continues(ranges: Seq<(i64, i64)>, valid_from: i64, valid_to: i64, uid: u32)
    requires
        range_fault(ranges, valid_from, valid_to, uid) is None,
    ensures
        forall|i: int|
            0 <= i < ranges.len() ==> !ranges_meet((valid_from, valid_to), #[trigger] ranges[i]),
        forall|i: int| 0 <= i < ranges.len() ==> (#[trigger] ranges[i]).1 < valid_from,
        ranges.len() > 0 ==> exists|i: int|
            0 <= i < ranges.len() && (#[trigger] ranges[i]).1 + 1 == valid_from,
{
    lemma_not_overlapped(ranges, (valid_from, valid_to));
    if ranges.len() > 0 {
        lemma_last_valid_to(ranges);
    }
}

pub proof fn lemma_not_overlapped(ranges: Seq<(i64, i64)>, range: (i64, i64))
    requires
        overlapped(ranges, range) is None,
    ensures
        forall|i: int| 0 <= i < ranges.len() ==> !ranges_meet(range, #[trigger] ranges[i]),
    decreases ranges.len(),
{
    if ranges.len() > 0 {
        let rest = ranges.drop_last();
        lemma_not_overlapped(rest, range);
        assert forall|i: int| 0 <= i < ranges.len() implies !ranges_meet(range, #[trigger] ranges[i]) by {
            if i < ranges.len() - 1 {
                assert(rest[i] == ranges[i]);
            }
        }
    }
}

/// The last change that earlier ranges reach is the end of one of them.
pub proof fn lemma_last_valid_to(ranges: Seq<(i64, i64)>)
    requires
        ranges.len() > 0,
    ensures
        forall|i: int| 0 <= i < ranges.len() ==> (#[trigger] ranges[i]).1 <= last_valid_to(ranges),
        exists|i: int| 0 <= i < ranges.len() && (#[trigger] ranges[i]).1 == last_valid_to(ranges),
    decreases ranges.len(),
{
    if ranges.len() > 1 {
        let rest = ranges.drop_last();
        lemma_last_valid_to(rest);
        let k = choose|i: int| 0 <= i < rest.len() && (#[trigger] rest[i]).1 == last_valid_to(rest);
        assert(ranges[k] == rest[k]);
        assert forall|i: int| 0 <= i < ranges.len() implies (#[trigger] ranges[i]).1 <= last_valid_to(
            ranges,
        ) by {
            if i < ranges.len() - 1 {
                assert(rest[i] == ranges[i]);
            }
        }
        assert(ranges[ranges.len() - 1].1 == ranges.last().1);
    } else {
        assert(ranges[0].1 == last_valid_to(ranges));
    }
}

/// A range that lies behind all others meets none.
pub proof fn lemma_meets_none(ranges: Seq<(i64, i64)>, range: (i64, i64))
    requires
        forall|i: int| 0 <= i < ranges.len() ==> (#[trigger] ranges[i]).1 < range.0,
    ensures
        overlapped(ranges, range) is None,
    decreases ranges.len(),
{
    if ranges.len() > 0 {
        let rest = ranges.drop_last();
        assert forall|i: int| 0 <= i < rest.len() implies (#[trigger] rest[i]).1 < range.0 by {
            assert(rest[i] == ranges[i]);
        }
        lemma_meets_none(rest, range);
        assert(ranges[ranges.len() - 1].1 < range.0);
    }
}

proof fn lemma_overlapped_stop(ranges: Seq<(i64, i64)>, range: (i64, i64), n: int)
    requires
        0 <= n <= ranges.len(),
        overlapped(ranges.take(n), range) is Some,
    ensures
        overlapped(ranges, range) == overlapped(ranges.take(n), range),
    decreases ranges.len(),
{
    if n == ranges.len() {
        assert(ranges.take(n) =~= ranges);
    } else {
        assert(ranges.drop_last().take(n) =~= ranges.take(n));
        lemma_overlapped_stop(ranges.drop_last(), range, n);
    }
}

/// Checks a new range against the earlier ones.
pub(crate) fn check_range(ranges: &Vec<(i64, i64)>, valid_from: i64, valid_to: i64, uid: u32) -> (f: Option<
    OpFault,
>)
    requires
        next_change_fits(ranges@, valid_from, valid_to),
    ensures
        match range_fault(ranges@, valid_from, valid_to, uid) {
            Some(v) => f matches Some(x) && x@ == v,
            None => f is None,
        },
{
    let ghost range = (valid_from, valid_to);
    let mut last: i64 = 0;
    let mut i: usize = 0;
    while i < ranges.len()
        invariant
            i <= ranges.len(),
            range == (valid_from, valid_to),
            overlapped(ranges@.take(i as int), range) is None,
            i > 0 ==> last == last_valid_to(ranges@.take(i as int)),
        decreases ranges.len() - i,
    {
        let (prev_from, prev_to) = ranges[i];
        proof {
            assert(ranges@.take(i + 1).drop_last() =~= ranges@.take(i as int));
            assert(ranges@.take(i + 1).last() == ranges@[i as int]);
            if overlapped(ranges@.take(i + 1), range) is Some {
                lemma_overlapped_stop(ranges@, range, i + 1);
            }
        }
        if valid_from <= prev_to && prev_from <= valid_to {
            return Some(OpFault::RangeOverlap { valid_from, valid_to, prev_from, prev_to, uid });
        }
        if i == 0 || last < prev_to {
            last = prev_to;
        }
        i = i + 1;
    }
    assert(ranges@.take(i as int) =~= ranges@);
    if ranges.len() > 0 {
        proof {
            lemma_last_valid_to(ranges@);
        }
        let expected_from: i64 = last + 1;
        if valid_from != expected_from {
            return Some(OpFault::RangeGap { valid_from, expected_from, uid });
        }
    }
    None
}

// ---------- the key being retired ----------

pub open spec fn users_table() -> Seq<char> {
    "_users"@
}

pub open spec fn auth_key_key(uid: u32) -> KeyView {
    KeyView::Column { table: users_table(), row_id: uid as i64, column: "auth_key"@ }
}

/// The bytes of a user's key as the tree has them: `None` if there are none.
pub open spec fn current_auth_key(answers: Answers, uid: u32) -> Result<Option<ValueView>, ErrorView> {
    match answers(ReadOpView::Bytes(auth_key_key(uid))) {
        Err(e) => Err(e@),
        Ok(results) => if results.len() == 0 {
            Ok(None)
        } else {
            Ok(Some(results[0].1))
        },
    }
}

/// Whether the tree has the key given, another one or none.
pub enum AuthKey {
    Same,
    Different,
    Absent,
}

pub open spec fn compared(current: Option<ValueView>, old_auth_key: Seq<u8>) -> AuthKey {
    match current {
        None => AuthKey::Absent,
        Some(v) => if v == ValueView::Raw(old_auth_key) {
            AuthKey::Same
        } else {
            AuthKey::Different
        },
    }
}

/// The read of a user's current key.
pub open spec fn auth_key_read(uid: u32) -> ReadOpView {
    ReadOpView::Bytes(auth_key_key(uid))
}

pub(crate) fn read_auth_key<R: OpReader>(reader: &mut R, uid: u32, old_auth_key: &Vec<u8>) -> (r: Result<
    AuthKey,
    ChangelogError,
>)
    ensures
        final(reader).answers() == old(reader).answers(),
        final(reader).log() == old(reader).log().push(auth_key_read(uid)),
        match current_auth_key(old(reader).answers(), uid) {
            Ok(current) => r matches Ok(k) && k == compared(current, old_auth_key@),
            Err(e) => r matches Err(x) && x@ == e,
        },
{
    let key = StorageKey::Column {
        table: "_users".to_owned(),
        row_id: uid as i64,
        column: "auth_key".to_owned(),
    };
    let read = reader.read(ReadOp::Bytes(key))?;
    let ghost seen = read@;
    assert(seen.len() == read.results.len());
    if read.results.len() == 0 {
        return Ok(AuthKey::Absent);
    }
    assert(seen[0] == (read.results@[0].0@, read.results@[0].1@));
    match &read.results[0].1 {
        StoredValue::Raw(bytes) => {
            if same_bytes(bytes.as_slice(), old_auth_key.as_slice()) {
                Ok(AuthKey::Same)
            } else {
                Ok(AuthKey::Different)
            }
        },
        _ => Ok(AuthKey::Different),
    }
}

// ---------- writes ----------

/// The entries' values under the keys given, as far as there are both.
pub open spec fn entry_puts(keys: Seq<StorageKey>, entries: Seq<KvView>) -> Seq<BatchOpView> {
    Seq::new(
        if keys.len() < entries.len() {
            keys.len()
        } else {
            entries.len()
        },
        |i: int| BatchOpView::Put { key: keys[i]@, value: ValueView::Raw(entries[i].value) },
    )
}

pub(crate) fn entry_put(key: &StorageKey, kv: &KvData) -> (op: BatchOp)
    ensures
        op@ == (BatchOpView::Put { key: key@, value: ValueView::Raw(kv.value@) }),
{
    BatchOp::Put { key: clone_key(key), value: StoredValue::Raw(clone_bytes(&kv.value)) }
}

pub(crate) fn push_entry_puts(ops: &mut Vec<BatchOp>, keys: &Vec<StorageKey>, entries: &Vec<KvData>)
    ensures
        batch_view(final(ops)@) == batch_view(old(ops)@) + entry_puts(keys@, entries_view(entries@)),
{
    let ghost start = batch_view(ops@);
    let ghost puts = entry_puts(keys@, entries_view(entries@));
    let mut i: usize = 0;
    assert(start + puts.take(0) =~= start);
    while i < keys.len() && i < entries.len()
        invariant
            i <= keys.len(),
            i <= entries.len(),
            puts == entry_puts(keys@, entries_view(entries@)),
            batch_view(ops@) == start + puts.take(i as int),
        decreases keys.len() - i,
    {
        let op = entry_put(&keys[i], &entries[i]);
        let ghost before = batch_view(ops@);
        ops.push(op);
        proof {
            assert(op@ == puts[i as int]);
            assert(batch_view(ops@) =~= before.push(op@));
            assert(puts.take(i + 1) =~= puts.take(i as int).push(op@));
            assert(before.push(op@) =~= start + puts.take(i + 1));
        }
        i = i + 1;
    }
    assert(puts.take(i as int) =~= puts);
}

pub(crate) fn append_ops(ops: &mut Vec<BatchOp>, more: Vec<BatchOp>)
    ensures
        batch_view(final(ops)@) == batch_view(old(ops)@) + batch_view(more@),
{
    let ghost added = more@;
    let mut more = more;
    ops.append(&mut more);
    assert(batch_view(ops@) =~= batch_view(old(ops)@) + batch_view(added));
}

} // verus!
