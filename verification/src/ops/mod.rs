//! Verification of changes: each operation checks a changelog entry against the
//! tree and gives the writes that it amounts to.
//!
//! Checks that depend on access rules or on schemas are made outside the
//! library; an operation takes their outcomes.

use vstd::prelude::*;

use crate::changelog::{ChangelogError, ErrorView};
use crate::faults::{Cell, OpFault, OpFaultView, OpName, StorageFault};
use crate::piece_text::{AddressView, PieceTextAddress};
use crate::piece_text_resolver::{int_value, raw_i64};
use crate::storage::{
    batch_view, clone_key, made, same_key, Answers, BatchOp, BatchOpView, KeyView, OpReader, ReadOp, ReadOpView,
    StorageKey, StoredValue, ValueView,
};

pub mod key_history;
pub mod key_history_laws;
pub mod key_refusal_laws;
pub mod names;
pub mod piece_text_acceptance_laws;
pub mod piece_text_buffer_laws;
pub mod piece_text_cleanup_laws;
pub mod piece_text_cleanup_pieces_op;
pub mod piece_text_edit_acceptance_laws;
pub mod piece_text_edit_op;
pub mod piece_text_edit_op_laws;
pub mod piece_text_index_laws;
pub mod piece_text_met_laws;
pub mod piece_text_read_laws;
pub mod piece_text_refusal_laws;
pub mod piece_text_tree;
pub mod refresh_keys_op;
pub mod remove_user_op;
pub mod update_op;
pub mod update_op_laws;
pub mod update_plan_laws;

verus! {

/// One step of what an operation does to the tree.
#[derive(Clone, Debug, PartialEq, Eq)]
pub enum TraceStep {
    Write(Vec<BatchOp>),
}

/// What an operation does to the tree.
#[derive(Clone, Debug, PartialEq, Eq)]
pub struct OpVerifyResult {
    pub write_steps: Vec<TraceStep>,
}

impl OpVerifyResult {
    /// The result that consists of the given writes, in one step.
    pub open spec fn writes(self, writes: Seq<BatchOpView>) -> bool {
        &&& self.write_steps.len() == 1
        &&& self.write_steps@[0] matches TraceStep::Write(ops) && batch_view(ops@) == writes
    }

    pub fn of_writes(ops: Vec<BatchOp>) -> (r: OpVerifyResult)
        ensures
            r.writes(batch_view(ops@)),
    {
        OpVerifyResult { write_steps: vec![TraceStep::Write(ops)] }
    }
}

/// What an operation is told of the change it belongs to.
#[derive(Clone, Copy, Debug, PartialEq, Eq)]
pub struct OpContext {
    pub current_change_id: u64,
}

/// A fault of the tree, met in the course of an operation.
pub open spec fn storage_error(op: OpName, fault: StorageFault) -> ErrorView {
    ErrorView::Within(op, Box::new(ErrorView::Storage(fault)))
}

pub open spec fn refusal(op: OpName, fault: OpFaultView) -> ErrorView {
    ErrorView::Refused(op, fault)
}

pub(crate) fn storage_failure(op: OpName, fault: StorageFault) -> (e: ChangelogError)
    ensures
        e@ == storage_error(op, fault),
{
    let inner = Box::new(ChangelogError::Storage(fault));
    let e = ChangelogError::Within(op, inner);
    proof {
        reveal_with_fuel(ChangelogError::says, 2);
    }
    e
}

/// An error, met in the course of an operation.
pub(crate) fn within(op: OpName, error: ChangelogError) -> (e: ChangelogError)
    ensures
        e@ == ErrorView::Within(op, Box::new(error@)),
{
    let e = ChangelogError::Within(op, Box::new(error));
    proof {
        reveal_with_fuel(ChangelogError::says, 2);
    }
    e
}

// ---------- reads ----------

/// The first value that a read of a key returns, which must be that of the key.
pub open spec fn first_value(answers: Answers, op: OpName, key: KeyView, cell: Cell) -> Result<
    ValueView,
    ErrorView,
> {
    match answers(ReadOpView::Key(key)) {
        Err(e) => Err(e@),
        Ok(results) => if results.len() == 0 {
            Err(storage_error(op, StorageFault::Absent { cell }))
        } else if results[0].0 != key {
            Err(storage_error(op, StorageFault::WrongKey { cell }))
        } else {
            Ok(results[0].1)
        },
    }
}

/// The one value that a read of a key must return.
pub open spec fn only_value(answers: Answers, op: OpName, key: KeyView, cell: Cell) -> Result<
    ValueView,
    ErrorView,
> {
    match answers(ReadOpView::Key(key)) {
        Err(e) => Err(e@),
        Ok(results) => if results.len() != 1 {
            Err(
                storage_error(
                    op,
                    StorageFault::ResultCount { cell, found: results.len() as usize },
                ),
            )
        } else if results[0].0 != key {
            Err(storage_error(op, StorageFault::WrongKey { cell }))
        } else {
            Ok(results[0].1)
        },
    }
}

/// The result is the value given, or fails with what is said.
pub open spec fn agrees<T>(r: Result<T, ChangelogError>, expected: Result<T, ErrorView>) -> bool {
    match expected {
        Ok(t) => r == Ok::<T, ChangelogError>(t),
        Err(e) => r matches Err(x) && x@ == e,
    }
}

pub(crate) fn read_first<R: OpReader>(reader: &mut R, op: OpName, key: StorageKey, cell: Cell) -> (r: Result<
    StoredValue,
    ChangelogError,
>)
    ensures
        final(reader).answers() == old(reader).answers(),
        final(reader).log() == old(reader).log().push(ReadOpView::Key(key@)),
        match first_value(old(reader).answers(), op, key@, cell) {
            Ok(v) => r matches Ok(value) && value@ == v,
            Err(e) => r matches Err(x) && x@ == e,
        },
{
    let expected = clone_key(&key);
    let mut read = reader.read(ReadOp::Key(key))?;
    let ghost seen = read@;
    assert(seen.len() == read.results.len());
    if read.results.len() == 0 {
        return Err(storage_failure(op, StorageFault::Absent { cell }));
    }
    assert(seen[0] == (read.results@[0].0@, read.results@[0].1@));
    let (actual_key, value) = read.results.swap_remove(0);
    if !same_key(&actual_key, &expected) {
        return Err(storage_failure(op, StorageFault::WrongKey { cell }));
    }
    Ok(value)
}

pub(crate) fn read_only<R: OpReader>(reader: &mut R, op: OpName, key: StorageKey, cell: Cell) -> (r: Result<
    StoredValue,
    ChangelogError,
>)
    ensures
        final(reader).answers() == old(reader).answers(),
        final(reader).log() == old(reader).log().push(ReadOpView::Key(key@)),
        match only_value(old(reader).answers(), op, key@, cell) {
            Ok(v) => r matches Ok(value) && value@ == v,
            Err(e) => r matches Err(x) && x@ == e,
        },
{
    let expected = clone_key(&key);
    let mut read = reader.read(ReadOp::Key(key))?;
    let ghost seen = read@;
    assert(seen.len() == read.results.len());
    if read.results.len() != 1 {
        return Err(
            storage_failure(op, StorageFault::ResultCount { cell, found: read.results.len() }),
        );
    }
    assert(seen[0] == (read.results@[0].0@, read.results@[0].1@));
    let (actual_key, value) = read.results.swap_remove(0);
    if !same_key(&actual_key, &expected) {
        return Err(storage_failure(op, StorageFault::WrongKey { cell }));
    }
    Ok(value)
}

/// The integer that a value of the tree is, to an operation.
pub open spec fn op_int(op: OpName, value: ValueView, cell: Cell) -> Result<i64, ErrorView> {
    match int_value(value, cell) {
        Ok(i) => Ok(i),
        Err(e) => Err(ErrorView::Within(op, Box::new(e@))),
    }
}

pub(crate) fn decode_op_int(op: OpName, value: &StoredValue, cell: Cell) -> (r: Result<
    i64,
    ChangelogError,
>)
    ensures
        agrees(r, op_int(op, value@, cell)),
{
    match crate::piece_text_resolver::decode_i64_value(value, cell) {
        Ok(i) => Ok(i),
        Err(e) => Err(within(op, e)),
    }
}

/// The integer that eight raw bytes of the tree stand for, to an operation.
pub open spec fn op_raw_int(op: OpName, value: ValueView, cell: Cell) -> Result<i64, ErrorView> {
    match raw_i64(value, cell) {
        Ok(i) => Ok(i),
        Err(e) => Err(ErrorView::Within(op, Box::new(e@))),
    }
}

pub(crate) fn decode_op_raw_int(op: OpName, value: &StoredValue, cell: Cell) -> (r: Result<
    i64,
    ChangelogError,
>)
    ensures
        agrees(r, op_raw_int(op, value@, cell)),
{
    match crate::piece_text_resolver::decode_raw_i64(value, cell) {
        Ok(i) => Ok(i),
        Err(e) => Err(within(op, e)),
    }
}

// ---------- the cell of a document ----------

/// The reads that lead from a cell to the ends of the document in it.
pub open spec fn document_reads(address: AddressView, list_number: i64) -> Seq<ReadOpView> {
    seq![
        ReadOpView::Key(address_key(address)),
        ReadOpView::Key(KeyView::PieceParent { list_number }),
        ReadOpView::Key(KeyView::PieceHead { list_number }),
        ReadOpView::Key(KeyView::PieceTail { list_number }),
    ]
}

pub open spec fn address_key(address: AddressView) -> KeyView {
    KeyView::Column { table: address.table, row_id: address.row_id, column: address.column }
}

pub(crate) fn address_storage_key(address: &PieceTextAddress) -> (k: StorageKey)
    ensures
        k@ == address_key(address@),
{
    StorageKey::Column {
        table: address.table.clone(),
        row_id: address.row_id,
        column: address.column.clone(),
    }
}

/// Each step on the way to a document.
pub proof fn lemma_document_reads(log: Seq<ReadOpView>, address: AddressView, list_number: i64)
    ensures
        ({
            let way = document_reads(address, list_number);
            let one = log.push(way[0]);
            let two = one.push(way[1]);
            let three = two.push(way[2]);
            let four = three.push(way[3]);
            &&& made(log, log, way, false)
            &&& made(log, one, way, false)
            &&& made(log, two, way, false)
            &&& made(log, three, way, false)
            &&& made(log, four, way, true)
        }),
{
    let way = document_reads(address, list_number);
    let one = log.push(way[0]);
    let two = one.push(way[1]);
    let three = two.push(way[2]);
    let four = three.push(way[3]);
    let whole = log + way;
    assert(whole =~= four);
    assert(whole.subrange(0, log.len() as int) =~= log);
    assert(whole.subrange(0, one.len() as int) =~= one);
    assert(whole.subrange(0, two.len() as int) =~= two);
    assert(whole.subrange(0, three.len() as int) =~= three);
    assert(whole.subrange(0, four.len() as int) =~= four);
    assert(one.subrange(0, log.len() as int) =~= log);
    assert(two.subrange(0, log.len() as int) =~= log);
    assert(three.subrange(0, log.len() as int) =~= log);
    assert(four.subrange(0, log.len() as int) =~= log);
}

/// What a list's parent entry must say: the cell that the envelope addresses.
pub open spec fn parent_fault(
    op: OpName,
    list_number: i64,
    value: ValueView,
    cell: Cell,
    address: AddressView,
) -> Option<ErrorView> {
    match value {
        ValueView::Parent(owner) => if owner != address {
            Some(
                refusal(
                    op,
                    OpFaultView::ParentMismatch {
                        list_number,
                        owner_table: owner.table,
                        owner_row_id: owner.row_id,
                        owner_column: owner.column,
                        table: address.table,
                        row_id: address.row_id,
                        column: address.column,
                    },
                ),
            )
        } else {
            None
        },
        _ => Some(storage_error(op, StorageFault::Undecodable { cell })),
    }
}

pub(crate) fn check_parent(
    op: OpName,
    list_number: i64,
    value: &StoredValue,
    cell: Cell,
    address: &PieceTextAddress,
) -> (r: Result<(), ChangelogError>)
    ensures
        match parent_fault(op, list_number, value@, cell, address@) {
            Some(e) => r matches Err(x) && x@ == e,
            None => r is Ok,
        },
{
    match value {
        StoredValue::Parent(owner) => {
            if !owner.same(address) {
                return Err(
                    ChangelogError::Refused(
                        op,
                        OpFault::ParentMismatch {
                            list_number,
                            owner_table: owner.table.clone(),
                            owner_row_id: owner.row_id,
                            owner_column: owner.column.clone(),
                            table: address.table.clone(),
                            row_id: address.row_id,
                            column: address.column.clone(),
                        },
                    ),
                );
            }
            Ok(())
        },
        _ => Err(storage_failure(op, StorageFault::Undecodable { cell })),
    }
}

/// The names include the one given.
pub open spec fn names_include(names: Seq<String>, name: Seq<char>) -> bool {
    exists|i: int| 0 <= i < names.len() && (#[trigger] names[i])@ == name
}

pub(crate) fn includes_name(names: &Vec<String>, name: &String) -> (found: bool)
    ensures
        found == names_include(names@, name@),
{
    let mut i: usize = 0;
    while i < names.len()
        invariant
            i <= names.len(),
            forall|j: int| 0 <= j < i ==> (#[trigger] names@[j])@ != name@,
        decreases names.len() - i,
    {
        if names[i] == *name {
            return true;
        }
        i = i + 1;
    }
    false
}

// ---------- writes ----------

/// Two writes are to the same key.
pub open spec fn repeats_key(writes: Seq<BatchOpView>) -> bool {
    exists|i: int, j: int| 0 <= i < j < writes.len() && #[trigger] writes[i].key() == #[trigger] writes[j].key()
}

/// The key of the first write whose key an earlier one has.
pub open spec fn first_repeated(writes: Seq<BatchOpView>) -> Option<KeyView>
    decreases writes.len(),
{
    if writes.len() == 0 {
        None
    } else {
        let before = writes.drop_last();
        let key = writes.last().key();
        match first_repeated(before) {
            Some(found) => Some(found),
            None => if exists|i: int| 0 <= i < before.len() && (#[trigger] before[i]).key() == key {
                Some(key)
            } else {
                None
            },
        }
    }
}

/// There is such a key exactly if two writes are to the same key.
pub proof fn lemma_first_repeated(writes: Seq<BatchOpView>)
    ensures
        first_repeated(writes) is Some <==> repeats_key(writes),
    decreases writes.len(),
{
    if writes.len() > 0 {
        let before = writes.drop_last();
        lemma_first_repeated(before);
        if repeats_key(before) {
            let (i, j) = choose|i: int, j: int|
                0 <= i < j < before.len() && #[trigger] before[i].key() == #[trigger] before[j].key();
            assert(writes[i].key() == writes[j].key());
        }
        if repeats_key(writes) && !repeats_key(before) {
            let (i, j) = choose|i: int, j: int|
                0 <= i < j < writes.len() && #[trigger] writes[i].key() == #[trigger] writes[j].key();
            if j < before.len() {
                assert(before[i].key() == before[j].key());
            } else {
                assert(before[i].key() == writes.last().key());
            }
        }
        if first_repeated(writes) is Some && !repeats_key(before) {
            let i = choose|i: int|
                0 <= i < before.len() && (#[trigger] before[i]).key() == writes.last().key();
            assert(writes[i].key() == writes[writes.len() - 1].key());
        }
    }
}

/// The key that is repeated first is that of two writes, and before the later of them
/// no key is repeated.
pub proof fn law_repeated_key(writes: Seq<BatchOpView>)
    ensures
        first_repeated(writes) matches Some(key) ==> exists|i: int, j: int|
            0 <= i < j < writes.len() && #[trigger] writes[i].key() == key && #[trigger] writes[j].key() == key
                && !repeats_key(writes.take(j)),
    decreases writes.len(),
{
    if writes.len() > 0 {
        let before = writes.drop_last();
        law_repeated_key(before);
        lemma_first_repeated(before);
        if let Some(key) = first_repeated(before) {
            let (i, j) = choose|i: int, j: int|
                0 <= i < j < before.len() && #[trigger] before[i].key() == key && #[trigger] before[j].key() == key
                    && !repeats_key(before.take(j));
            assert(before.take(j) =~= writes.take(j));
            assert(writes[i].key() == key && writes[j].key() == key);
        } else if first_repeated(writes) is Some {
            let key = writes.last().key();
            let i = choose|i: int| 0 <= i < before.len() && (#[trigger] before[i]).key() == key;
            let j = writes.len() - 1;
            assert(before =~= writes.take(j));
            assert(writes[i].key() == key && writes[j].key() == key);
        }
    }
}

/// Further writes do not change which key is repeated first.
pub proof fn lemma_first_repeated_on(writes: Seq<BatchOpView>, n: int)
    requires
        0 <= n <= writes.len(),
        first_repeated(writes.take(n)) is Some,
    ensures
        first_repeated(writes) == first_repeated(writes.take(n)),
    decreases writes.len(),
{
    if n == writes.len() {
        assert(writes.take(n) =~= writes);
    } else {
        assert(writes.drop_last().take(n) =~= writes.take(n));
        lemma_first_repeated_on(writes.drop_last(), n);
    }
}

/// Rejects writes of which two are to the same key. Among the first `known` there
/// are none.
pub fn ensure_no_duplicate_write_keys(op: OpName, ops: &Vec<BatchOp>, known: usize) -> (r: Result<
    (),
    ChangelogError,
>)
    requires
        known <= ops.len(),
        !repeats_key(batch_view(ops@).take(known as int)),
    ensures
        match first_repeated(batch_view(ops@)) {
            Some(key) => r matches Err(x) && x@ == refusal(op, OpFaultView::DuplicateWriteKey { key }),
            None => r is Ok && !repeats_key(batch_view(ops@)),
        },
{
    let ghost writes = batch_view(ops@);
    let mut j: usize = known;
    proof {
        assert forall|a: int, b: int| 0 <= a < b < j implies #[trigger] writes[a].key()
            != #[trigger] writes[b].key() by {
            let first = writes.take(known as int);
            assert(first[a].key() == writes[a].key() && first[b].key() == writes[b].key());
        }
    }
    while j < ops.len()
        invariant
            j <= ops.len(),
            writes == batch_view(ops@),
            forall|a: int, b: int|
                0 <= a < b < j ==> #[trigger] writes[a].key() != #[trigger] writes[b].key(),
        decreases ops.len() - j,
    {
        let mut i: usize = 0;
        while i < j
            invariant
                i <= j < ops.len(),
                writes == batch_view(ops@),
                forall|a: int, b: int|
                    0 <= a < b < j ==> #[trigger] writes[a].key() != #[trigger] writes[b].key(),
                forall|a: int| 0 <= a < i ==> #[trigger] writes[a].key() != writes[j as int].key(),
            decreases j - i,
        {
            if same_key(ops[i].key(), ops[j].key()) {
                proof {
                    let seen = writes.take(j + 1);
                    let before = writes.take(j as int);
                    assert(seen.drop_last() =~= before);
                    assert(seen.last() == writes[j as int]);
                    assert(before[i as int].key() == seen.last().key());
                    lemma_first_repeated(before);
                    if repeats_key(before) {
                        let (a, b) = choose|a: int, b: int|
                            0 <= a < b < before.len() && #[trigger] before[a].key()
                                == #[trigger] before[b].key();
                        assert(writes[a].key() == writes[b].key());
                    }
                    lemma_first_repeated_on(writes, j + 1);
                }
                let key = clone_key(ops[j].key());
                return Err(ChangelogError::Refused(op, OpFault::DuplicateWriteKey { key }));
            }
            i = i + 1;
        }
        j = j + 1;
    }
    proof {
        lemma_first_repeated(writes);
    }
    Ok(())
}

} // verus!
