//! The cleanup of a document's deleted rows.
//!
//! Rows are taken out of the chain run by run. The rows on either side of a run
//! are not read: that they point to the run follows from the chain being well
//! linked, which every operation keeps. They are linked to each other.

use std::collections::BTreeSet;

use vstd::prelude::*;

use crate::changelog::{ChangelogEntry, ChangelogError, ErrorView};
use crate::faults::{Cell, CellKind, OpFault, OpFaultView, OpName, StorageFault};
use crate::ops::piece_text_edit_op::{int_put, raw_i64_put, raw_int_put};
use crate::ops::{
    address_key, address_storage_key, agrees, check_parent, decode_op_int, decode_op_raw_int,
    document_reads, ensure_no_duplicate_write_keys, first_repeated, includes_name, lemma_document_reads,
    lemma_first_repeated, lemma_first_repeated_on,
    names_include, only_value, op_int, op_raw_int, parent_fault, read_only, refusal, repeats_key,
    within, OpContext, OpVerifyResult,
};
use crate::piece_text::{AddressView, PieceTextAddress};
use crate::piece_text_cleanup::{
    cleanup_pieces_in_message, law_cleanup_runs, removals_view, removed_rows, CleanupPiecesView,
    PieceTextCleanupPiecesEnvelopeV1, PieceTextCleanupRunV1,
};
use crate::piece_text_planner::PieceRow;
use crate::piece_text_resolver::{
    piece_column_key, piece_columns, piece_coords_delete_index_deletes, piece_index_deletes,
    piece_key, piece_read, piece_row, read_piece_coords_row, row_reads, whole_row_reads, PieceColumn,
};
use crate::storage::{
    batch_view, lemma_made_none, lemma_made_then, lemma_made_up_to, made, same_key, Answers,
    BatchOp, BatchOpView, KeyView, OpReader, ReadOp, ReadOpView, StorageKey, StoredValue,
};

verus! {

/// The outcome of the check that is made outside the library.
#[derive(Debug)]
pub struct CleanupChecks {
    /// The table's columns that hold documents.
    pub piece_text_columns: Result<Vec<String>, ChangelogError>,
}

pub open spec fn refused(fault: OpFaultView) -> ErrorView {
    refusal(OpName::PieceTextCleanupPieces, fault)
}

fn refuse(fault: OpFault) -> (e: ChangelogError)
    ensures
        e@ == refused(fault@),
{
    ChangelogError::Refused(OpName::PieceTextCleanupPieces, fault)
}

// ---------- rows of a run ----------

/// What stands against a row's removal, if anything.
pub open spec fn removed_row_fault(row: PieceRow, list_number: i64) -> Option<ErrorView> {
    if row.list_number != list_number {
        Some(
            refused(
                OpFaultView::RemovedOtherList {
                    row_id: row.id,
                    found_list: row.list_number,
                    list_number,
                },
            ),
        )
    } else if !row.coord.tombstone {
        Some(refused(OpFaultView::RemovedLive { row_id: row.id }))
    } else if row.coord.buffer_id <= 0 {
        Some(
            refused(OpFaultView::RemovedBuffer { row_id: row.id, buffer_id: row.coord.buffer_id }),
        )
    } else if !row.coord.aligned() {
        Some(
            refused(
                OpFaultView::RemovedUnaligned {
                    row_id: row.id,
                    start_byte: row.coord.start_byte,
                    len_bytes: row.coord.len_bytes,
                },
            ),
        )
    } else {
        None
    }
}

fn validate_removed_row(row: &PieceRow, list_number: i64) -> (r: Result<(), ChangelogError>)
    ensures
        match removed_row_fault(*row, list_number) {
            Some(e) => r matches Err(x) && x@ == e,
            None => r is Ok,
        },
{
    if row.list_number != list_number {
        return Err(
            refuse(
                OpFault::RemovedOtherList {
                    row_id: row.id,
                    found_list: row.list_number,
                    list_number,
                },
            ),
        );
    }
    if !row.coord.tombstone {
        return Err(refuse(OpFault::RemovedLive { row_id: row.id }));
    }
    if row.coord.buffer_id <= 0 {
        return Err(
            refuse(OpFault::RemovedBuffer { row_id: row.id, buffer_id: row.coord.buffer_id }),
        );
    }
    if row.coord.validate_utf32_alignment().is_err() {
        return Err(
            refuse(
                OpFault::RemovedUnaligned {
                    row_id: row.id,
                    start_byte: row.coord.start_byte,
                    len_bytes: row.coord.len_bytes,
                },
            ),
        );
    }
    Ok(())
}

/// The rows of a run, up to the first that may not be removed.
pub open spec fn run_rows(answers: Answers, list_number: i64, run: Seq<i64>) -> Result<
    Seq<PieceRow>,
    ErrorView,
>
    decreases run.len(),
{
    if run.len() == 0 {
        Ok(Seq::empty())
    } else {
        match run_rows(answers, list_number, run.drop_last()) {
            Err(e) => Err(e),
            Ok(rows) => match piece_row(answers, run.last()) {
                Err(e) => Err(
                    ErrorView::Within(OpName::PieceTextCleanupPieces, Box::new(e@)),
                ),
                Ok(row) => match removed_row_fault(row, list_number) {
                    Some(e) => Err(e),
                    None => Ok(rows.push(row)),
                },
            },
        }
    }
}

proof fn lemma_run_rows_stop(answers: Answers, list_number: i64, run: Seq<i64>, n: int)
    requires
        0 <= n <= run.len(),
        run_rows(answers, list_number, run.take(n)) is Err,
    ensures
        run_rows(answers, list_number, run) == run_rows(answers, list_number, run.take(n)),
    decreases run.len(),
{
    if n == run.len() {
        assert(run.take(n) =~= run);
    } else {
        assert(run.drop_last().take(n) =~= run.take(n));
        lemma_run_rows_stop(answers, list_number, run.drop_last(), n);
    }
}

/// What can be said of the rows of a run.
proof fn lemma_run_rows(answers: Answers, list_number: i64, run: Seq<i64>)
    ensures
        run_rows(answers, list_number, run) matches Ok(rows) ==> rows.len() == run.len() && forall|
            i: int,
        |
            0 <= i < rows.len() ==> (#[trigger] rows[i]).id == run[i] && rows[i].id > 0
                && rows[i].list_number == list_number && rows[i].coord.tombstone
                && rows[i].coord.buffer_id > 0,
    decreases run.len(),
{
    if run.len() > 0 {
        lemma_run_rows(answers, list_number, run.drop_last());
    }
}

/// The reads of rows: their own cells and no others.
pub open spec fn rows_reads(ids: Seq<i64>) -> Seq<ReadOpView>
    decreases ids.len(),
{
    if ids.len() == 0 {
        Seq::empty()
    } else {
        rows_reads(ids.drop_last()) + whole_row_reads(ids.last())
    }
}

/// No row is read but those that are removed: the rows on either side of a run are
/// left unread.
pub proof fn law_only_removed_rows_are_read(ids: Seq<i64>, k: int)
    requires
        0 <= k < rows_reads(ids).len(),
    ensures
        forall|id: i64, column: PieceColumn|
            !ids.contains(id) ==> rows_reads(ids)[k] != #[trigger] piece_read(id, column),
    decreases ids.len(),
{
    let rest = ids.drop_last();
    let n = rows_reads(rest).len();
    assert forall|id: i64| !ids.contains(id) implies !(#[trigger] rest.contains(id)) && id != ids.last() by {
        assert(ids[ids.len() - 1] == ids.last());
        if rest.contains(id) {
            let i = choose|i: int| 0 <= i < rest.len() && rest[i] == id;
            assert(ids[i] == id);
        }
    }
    if k < n {
        law_only_removed_rows_are_read(rest, k);
        assert forall|id: i64, column: PieceColumn| !ids.contains(id) implies rows_reads(ids)[k]
            != #[trigger] piece_read(id, column) by {
            assert(!rest.contains(id));
        }
    } else {
        assert(rows_reads(ids)[k] == piece_read(ids.last(), piece_columns()[k - n]));
        assert forall|id: i64, column: PieceColumn| !ids.contains(id) implies rows_reads(ids)[k]
            != #[trigger] piece_read(id, column) by {
            assert(!rest.contains(id));
        }
    }
}

proof fn lemma_rows_reads_append(a: Seq<i64>, b: Seq<i64>)
    ensures
        rows_reads(a + b) == rows_reads(a) + rows_reads(b),
    decreases b.len(),
{
    if b.len() == 0 {
        assert(a + b =~= a);
        assert(rows_reads(a) + rows_reads(b) =~= rows_reads(a));
    } else {
        assert((a + b).drop_last() =~= a + b.drop_last());
        lemma_rows_reads_append(a, b.drop_last());
        assert(rows_reads(a + b) =~= rows_reads(a) + rows_reads(b));
    }
}

/// Reads that were made of the first of some rows, and of a part of the next, are
/// so much of those of all.
proof fn lemma_rows_made(
    before: Seq<ReadOpView>,
    middle: Seq<ReadOpView>,
    after: Seq<ReadOpView>,
    answers: Answers,
    ids: Seq<i64>,
    n: int,
)
    requires
        0 <= n < ids.len(),
        made(before, middle, rows_reads(ids.take(n)), true),
        after == middle + row_reads(answers, ids[n]),
    ensures
        made(before, after, rows_reads(ids), false),
        row_reads(answers, ids[n]) == whole_row_reads(ids[n]) ==> made(
            before,
            after,
            rows_reads(ids.take(n + 1)),
            true,
        ),
{
    let whole = whole_row_reads(ids[n]);
    let part = row_reads(answers, ids[n]);
    assert((middle + whole).subrange(0, after.len() as int) =~= after);
    assert(after.subrange(0, middle.len() as int) =~= middle);
    assert(made(middle, after, whole, part == whole));
    lemma_made_then(before, middle, after, rows_reads(ids.take(n)), whole, part == whole);
    assert(ids.take(n + 1).drop_last() =~= ids.take(n));
    lemma_rows_reads_append(ids.take(n + 1), ids.skip(n + 1));
    assert(ids.take(n + 1) + ids.skip(n + 1) =~= ids);
    lemma_made_up_to(before, after, rows_reads(ids.take(n + 1)), rows_reads(ids.skip(n + 1)), part == whole);
}

fn read_run<R: OpReader>(reader: &mut R, list_number: i64, run: &Vec<i64>) -> (r: Result<
    Vec<PieceRow>,
    ChangelogError,
>)
    ensures
        final(reader).answers() == old(reader).answers(),
        made(old(reader).log(), final(reader).log(), rows_reads(run@), r is Ok),
        match run_rows(old(reader).answers(), list_number, run@) {
            Ok(rows) => r matches Ok(v) && v@ == rows,
            Err(e) => r matches Err(x) && x@ == e,
        },
{
    let ghost answers = reader.answers();
    let ghost log = reader.log();
    let mut rows: Vec<PieceRow> = Vec::new();
    let mut i: usize = 0;
    proof {
        lemma_made_none(log, rows_reads(run@));
        assert(run@.take(0) =~= Seq::empty());
    }
    while i < run.len()
        invariant
            i <= run.len(),
            answers == reader.answers(),
            answers == old(reader).answers(),
            log == old(reader).log(),
            made(log, reader.log(), rows_reads(run@.take(i as int)), true),
            run_rows(answers, list_number, run@.take(i as int)) matches Ok(v) && v == rows@,
        decreases run.len() - i,
    {
        proof {
            assert(run@.take(i + 1).drop_last() =~= run@.take(i as int));
            if run_rows(answers, list_number, run@.take(i + 1)) is Err {
                lemma_run_rows_stop(answers, list_number, run@, i + 1);
            }
        }
        let ghost middle = reader.log();
        let read = read_piece_coords_row(reader, run[i]);
        proof {
            lemma_rows_made(log, middle, reader.log(), answers, run@, i as int);
        }
        let row = match read {
            Ok(row) => row,
            Err(e) => {
                return Err(within(OpName::PieceTextCleanupPieces, e));
            },
        };
        validate_removed_row(&row, list_number)?;
        rows.push(row);
        i = i + 1;
    }
    assert(run@.take(i as int) =~= run@);
    Ok(rows)
}

/// The first pair of rows that do not point to each other.
pub open spec fn run_links_fault(rows: Seq<PieceRow>) -> Option<ErrorView>
    decreases rows.len(),
{
    if rows.len() < 2 {
        None
    } else {
        match run_links_fault(rows.drop_last()) {
            Some(e) => Some(e),
            None => {
                let current = rows[rows.len() - 2];
                let next = rows.last();
                if current.next_id != next.id {
                    Some(
                        refused(
                            OpFaultView::RemovedNext {
                                row_id: current.id,
                                next_id: current.next_id,
                                expected: next.id,
                            },
                        ),
                    )
                } else if next.prev_id != current.id {
                    Some(
                        refused(
                            OpFaultView::RemovedPrev {
                                row_id: next.id,
                                prev_id: next.prev_id,
                                expected: current.id,
                            },
                        ),
                    )
                } else {
                    None
                }
            },
        }
    }
}

proof fn lemma_run_links_stop(rows: Seq<PieceRow>, n: int)
    requires
        0 <= n <= rows.len(),
        run_links_fault(rows.take(n)) is Some,
    ensures
        run_links_fault(rows) == run_links_fault(rows.take(n)),
    decreases rows.len(),
{
    if n == rows.len() {
        assert(rows.take(n) =~= rows);
    } else {
        assert(rows.drop_last().take(n) =~= rows.take(n));
        lemma_run_links_stop(rows.drop_last(), n);
    }
}

fn check_run_links(rows: &Vec<PieceRow>) -> (r: Result<(), ChangelogError>)
    requires
        rows.len() > 0,
    ensures
        match run_links_fault(rows@) {
            Some(e) => r matches Err(x) && x@ == e,
            None => r is Ok,
        },
{
    let mut i: usize = 1;
    while i < rows.len()
        invariant
            1 <= i <= rows.len(),
            run_links_fault(rows@.take(i as int)) is None,
        decreases rows.len() - i,
    {
        let current = rows[i - 1];
        let next = rows[i];
        proof {
            assert(rows@.take(i + 1).drop_last() =~= rows@.take(i as int));
            if run_links_fault(rows@.take(i + 1)) is Some {
                lemma_run_links_stop(rows@, i + 1);
            }
        }
        if current.next_id != next.id {
            return Err(
                refuse(
                    OpFault::RemovedNext {
                        row_id: current.id,
                        next_id: current.next_id,
                        expected: next.id,
                    },
                ),
            );
        }
        if next.prev_id != current.id {
            return Err(
                refuse(
                    OpFault::RemovedPrev {
                        row_id: next.id,
                        prev_id: next.prev_id,
                        expected: current.id,
                    },
                ),
            );
        }
        i = i + 1;
    }
    assert(rows@.take(i as int) =~= rows@);
    Ok(())
}

// ---------- the rows on either side ----------

/// What is wrong with the ends of a run, if anything: a run without a row on one
/// side must be at that end of the document, and the rows on both sides differ.
pub open spec fn run_ends_fault(rows: Seq<PieceRow>, head_id: i64, tail_id: i64) -> Option<ErrorView> {
    let prev = rows[0].prev_id;
    let next = rows.last().next_id;
    if prev == 0 && head_id != rows[0].id {
        Some(refused(OpFaultView::RunNotAtHead { row_id: rows[0].id, head_id }))
    } else if next == 0 && tail_id != rows.last().id {
        Some(refused(OpFaultView::RunNotAtTail { row_id: rows.last().id, tail_id }))
    } else if prev != 0 && prev == next {
        Some(refused(OpFaultView::SameSurvivors { survivor: prev }))
    } else {
        None
    }
}

/// A row beside a run stays, and is beside no other run. What is left is the set
/// of such rows so far.
pub open spec fn claim_survivor(removed: Set<i64>, claimed: Set<i64>, survivor: i64) -> Result<
    Set<i64>,
    ErrorView,
> {
    if survivor == 0 {
        Ok(claimed)
    } else if removed.contains(survivor) {
        Err(refused(OpFaultView::SurvivorRemoved { survivor }))
    } else if claimed.contains(survivor) {
        Err(refused(OpFaultView::SurvivorShared { survivor }))
    } else {
        Ok(claimed.insert(survivor))
    }
}

fn claim(removed: &BTreeSet<i64>, claimed: &mut BTreeSet<i64>, survivor: i64) -> (r: Result<
    (),
    ChangelogError,
>)
    ensures
        match claim_survivor(removed@, old(claimed)@, survivor) {
            Ok(set) => r is Ok && final(claimed)@ == set,
            Err(e) => r matches Err(x) && x@ == e,
        },
{
    broadcast use vstd::std_specs::btree::group_btree_axioms;

    if survivor == 0 {
        return Ok(());
    }
    if removed.contains(&survivor) {
        return Err(refuse(OpFault::SurvivorRemoved { survivor }));
    }
    if claimed.contains(&survivor) {
        return Err(refuse(OpFault::SurvivorShared { survivor }));
    }
    claimed.insert(survivor);
    Ok(())
}

// ---------- writes ----------

/// The deletion of a row's cells.
pub open spec fn cell_deletes(row: PieceRow) -> Seq<BatchOpView> {
    piece_columns().map_values(
        |column: PieceColumn| BatchOpView::Delete { key: piece_key(row.id, column) },
    )
}

/// The deletion of a row with its index entries.
pub open spec fn row_deletes(row: PieceRow) -> Seq<BatchOpView> {
    cell_deletes(row) + piece_index_deletes(row.id, row.list_number, row.coord.buffer_id)
}

pub open spec fn rows_deletes(rows: Seq<PieceRow>) -> Seq<BatchOpView>
    decreases rows.len(),
{
    if rows.len() == 0 {
        Seq::empty()
    } else {
        rows_deletes(rows.drop_last()) + row_deletes(rows.last())
    }
}

/// The link from the row before a run, or from the document, to the row after it.
pub open spec fn forward_link(list_number: i64, prev: i64, next: i64) -> BatchOpView {
    if prev == 0 {
        raw_int_put(KeyView::PieceHead { list_number }, next)
    } else {
        int_put(piece_key(prev, PieceColumn::NextId), next)
    }
}

/// The link back.
pub open spec fn backward_link(list_number: i64, prev: i64, next: i64) -> BatchOpView {
    if next == 0 {
        raw_int_put(KeyView::PieceTail { list_number }, prev)
    } else {
        int_put(piece_key(next, PieceColumn::PrevId), prev)
    }
}

/// The writes that take rows between two others out of the chain.
pub open spec fn writes_between(list_number: i64, prev: i64, next: i64, rows: Seq<PieceRow>) -> Seq<
    BatchOpView,
> {
    seq![forward_link(list_number, prev, next), backward_link(list_number, prev, next)]
        + rows_deletes(rows)
}

/// The writes that take a run out of the chain.
pub open spec fn run_writes(list_number: i64, rows: Seq<PieceRow>) -> Seq<BatchOpView> {
    writes_between(list_number, rows[0].prev_id, rows.last().next_id, rows)
}

/// Writes, unless two of them are to the same key.
pub open spec fn unless_repeated(writes: Seq<BatchOpView>) -> Result<Seq<BatchOpView>, ErrorView> {
    match first_repeated(writes) {
        Some(key) => Err(refused(OpFaultView::DuplicateWriteKey { key })),
        None => Ok(writes),
    }
}

/// Writes, and then the deletion of a row.
pub open spec fn and_row_deletes(writes: Seq<BatchOpView>, row: PieceRow) -> Result<
    Seq<BatchOpView>,
    ErrorView,
> {
    let (row_id, list_number, buffer_id) = (row.id, row.list_number, row.coord.buffer_id);
    match unless_repeated(writes + cell_deletes(row)) {
        Err(e) => Err(e),
        Ok(so_far) => if row_id > 0 && list_number > 0 && buffer_id > 0 {
            unless_repeated(so_far + piece_index_deletes(row_id, list_number, buffer_id))
        } else {
            Err(
                ErrorView::Storage(
                    StorageFault::PieceIndexDeleteNotPositive { row_id, list_number, buffer_id },
                ),
            )
        },
    }
}

/// Writes, and then the deletion of rows, up to the first that stands against it.
pub open spec fn and_rows_deletes(writes: Seq<BatchOpView>, rows: Seq<PieceRow>) -> Result<
    Seq<BatchOpView>,
    ErrorView,
>
    decreases rows.len(),
{
    if rows.len() == 0 {
        Ok(writes)
    } else {
        match and_rows_deletes(writes, rows.drop_last()) {
            Err(e) => Err(e),
            Ok(so_far) => and_row_deletes(so_far, rows.last()),
        }
    }
}

/// Writes, and then those that take rows between two others out of the chain.
pub open spec fn and_splice(
    writes: Seq<BatchOpView>,
    list_number: i64,
    prev: i64,
    next: i64,
    rows: Seq<PieceRow>,
) -> Result<Seq<BatchOpView>, ErrorView> {
    let links = seq![forward_link(list_number, prev, next), backward_link(list_number, prev, next)];
    match unless_repeated(writes + links) {
        Err(e) => Err(e),
        Ok(so_far) => and_rows_deletes(so_far, rows),
    }
}

proof fn lemma_repeats_on(writes: Seq<BatchOpView>, more: Seq<BatchOpView>)
    requires
        repeats_key(writes),
    ensures
        first_repeated(writes) is Some,
        first_repeated(writes + more) == first_repeated(writes),
{
    lemma_first_repeated(writes);
    assert((writes + more).take(writes.len() as int) =~= writes);
    lemma_first_repeated_on(writes + more, writes.len() as int);
}

proof fn lemma_rows_deletes_stop(writes: Seq<BatchOpView>, rows: Seq<PieceRow>, n: int)
    requires
        0 <= n <= rows.len(),
        and_rows_deletes(writes, rows.take(n)) is Err,
    ensures
        and_rows_deletes(writes, rows) == and_rows_deletes(writes, rows.take(n)),
    decreases rows.len(),
{
    if n == rows.len() {
        assert(rows.take(n) =~= rows);
    } else {
        assert(rows.drop_last().take(n) =~= rows.take(n));
        lemma_rows_deletes_stop(writes, rows.drop_last(), n);
    }
}

proof fn lemma_rows_deletes(writes: Seq<BatchOpView>, rows: Seq<PieceRow>)
    requires
        !repeats_key(writes),
        forall|i: int|
            0 <= i < rows.len() ==> (#[trigger] rows[i]).id > 0 && rows[i].list_number > 0
                && rows[i].coord.buffer_id > 0,
    ensures
        and_rows_deletes(writes, rows) == unless_repeated(writes + rows_deletes(rows)),
    decreases rows.len(),
{
    if rows.len() == 0 {
        assert(writes + rows_deletes(rows) =~= writes);
        lemma_first_repeated(writes);
    } else {
        let row = rows.last();
        let before = writes + rows_deletes(rows.drop_last());
        let cells = before + cell_deletes(row);
        let index = piece_index_deletes(row.id, row.list_number, row.coord.buffer_id);
        lemma_rows_deletes(writes, rows.drop_last());
        assert(row == rows[rows.len() - 1]);
        assert(writes + rows_deletes(rows) =~= cells + index);
        lemma_first_repeated(before);
        lemma_first_repeated(cells);
        if repeats_key(before) {
            lemma_repeats_on(before, cell_deletes(row));
        }
        if repeats_key(cells) {
            lemma_repeats_on(cells, index);
        }
    }
}

/// Rows with positive ids can be taken out unless two writes are to the same key.
proof fn lemma_splice(
    writes: Seq<BatchOpView>,
    list_number: i64,
    prev: i64,
    next: i64,
    rows: Seq<PieceRow>,
)
    requires
        forall|i: int|
            0 <= i < rows.len() ==> (#[trigger] rows[i]).id > 0 && rows[i].list_number > 0
                && rows[i].coord.buffer_id > 0,
    ensures
        and_splice(writes, list_number, prev, next, rows) == unless_repeated(
            writes + writes_between(list_number, prev, next, rows),
        ),
{
    let links = seq![forward_link(list_number, prev, next), backward_link(list_number, prev, next)];
    let linked = writes + links;
    assert(writes + writes_between(list_number, prev, next, rows) =~= linked + rows_deletes(rows));
    lemma_first_repeated(linked);
    if repeats_key(linked) {
        lemma_repeats_on(linked, rows_deletes(rows));
    } else {
        lemma_rows_deletes(linked, rows);
    }
}

/// Adds writes to others, none of which are to the same key.
fn push_unique_ops(ops: &mut Vec<BatchOp>, more: Vec<BatchOp>) -> (r: Result<(), ChangelogError>)
    requires
        !repeats_key(batch_view(old(ops)@)),
    ensures
        match unless_repeated(batch_view(old(ops)@) + batch_view(more@)) {
            Ok(writes) => r is Ok && batch_view(final(ops)@) == writes && !repeats_key(writes),
            Err(e) => r matches Err(x) && x@ == e,
        },
{
    let ghost before = batch_view(ops@);
    let ghost added = batch_view(more@);
    let known: usize = ops.len();
    let mut more = more;
    ops.append(&mut more);
    proof {
        assert(batch_view(ops@) =~= before + added);
        assert(batch_view(ops@).take(known as int) =~= before);
    }
    ensure_no_duplicate_write_keys(OpName::PieceTextCleanupPieces, ops, known)
}

fn push_row_deletes(ops: &mut Vec<BatchOp>, row: &PieceRow) -> (r: Result<(), ChangelogError>)
    requires
        !repeats_key(batch_view(old(ops)@)),
    ensures
        match and_row_deletes(batch_view(old(ops)@), *row) {
            Ok(writes) => r is Ok && batch_view(final(ops)@) == writes && !repeats_key(writes),
            Err(e) => r matches Err(x) && x@ == e,
        },
{
    let cells = vec![
        BatchOp::Delete { key: piece_column_key(row.id, PieceColumn::ListNumber) },
        BatchOp::Delete { key: piece_column_key(row.id, PieceColumn::PrevId) },
        BatchOp::Delete { key: piece_column_key(row.id, PieceColumn::NextId) },
        BatchOp::Delete { key: piece_column_key(row.id, PieceColumn::BufferId) },
        BatchOp::Delete { key: piece_column_key(row.id, PieceColumn::StartByte) },
        BatchOp::Delete { key: piece_column_key(row.id, PieceColumn::LenBytes) },
        BatchOp::Delete { key: piece_column_key(row.id, PieceColumn::Tombstone) },
    ];
    assert(batch_view(cells@) =~= cell_deletes(*row));
    push_unique_ops(ops, cells)?;
    let index = piece_coords_delete_index_deletes(row.id, row.list_number, row.coord.buffer_id)?;
    push_unique_ops(ops, index)
}

/// Adds the writes that take rows between two others out of the chain.
pub fn materialise_run_writes(
    prev: i64,
    next: i64,
    list_number: i64,
    rows: &Vec<PieceRow>,
    ops: &mut Vec<BatchOp>,
) -> (r: Result<(), ChangelogError>)
    requires
        !repeats_key(batch_view(old(ops)@)),
    ensures
        match and_splice(batch_view(old(ops)@), list_number, prev, next, rows@) {
            Ok(writes) => r is Ok && batch_view(final(ops)@) == writes && !repeats_key(writes),
            Err(e) => r matches Err(x) && x@ == e,
        },
{
    let forward = if prev == 0 {
        raw_i64_put(StorageKey::PieceHead { list_number }, next)
    } else {
        BatchOp::Put {
            key: piece_column_key(prev, PieceColumn::NextId),
            value: StoredValue::Int(next),
        }
    };
    let backward = if next == 0 {
        raw_i64_put(StorageKey::PieceTail { list_number }, prev)
    } else {
        BatchOp::Put {
            key: piece_column_key(next, PieceColumn::PrevId),
            value: StoredValue::Int(prev),
        }
    };
    let links = vec![forward, backward];
    assert(batch_view(links@) =~= seq![
        forward_link(list_number, prev, next),
        backward_link(list_number, prev, next),
    ]);
    push_unique_ops(ops, links)?;
    let ghost linked = batch_view(ops@);
    let mut i: usize = 0;
    while i < rows.len()
        invariant
            i <= rows.len(),
            and_rows_deletes(linked, rows@.take(i as int)) == Ok::<Seq<BatchOpView>, ErrorView>(
                batch_view(ops@),
            ),
            !repeats_key(batch_view(ops@)),
            and_splice(batch_view(old(ops)@), list_number, prev, next, rows@) == and_rows_deletes(
                linked,
                rows@,
            ),
        decreases rows.len() - i,
    {
        proof {
            assert(rows@.take(i + 1).drop_last() =~= rows@.take(i as int));
        }
        if let Err(e) = push_row_deletes(ops, &rows[i]) {
            proof {
                lemma_rows_deletes_stop(linked, rows@, i + 1);
            }
            return Err(e);
        }
        i = i + 1;
    }
    assert(rows@.take(i as int) =~= rows@);
    Ok(())
}

// ---------- runs ----------

/// What earlier runs have written, and the rows beside them.
pub struct RunsState {
    pub writes: Seq<BatchOpView>,
    pub claimed: Set<i64>,
}

/// What a run adds to what earlier runs have written.
pub open spec fn run_step(
    answers: Answers,
    list_number: i64,
    head_id: i64,
    tail_id: i64,
    removed: Set<i64>,
    before: RunsState,
    run: Seq<i64>,
) -> Result<RunsState, ErrorView> {
    match run_rows(answers, list_number, run) {
        Err(e) => Err(e),
        Ok(rows) => match run_links_fault(rows) {
            Some(e) => Err(e),
            None => match run_ends_fault(rows, head_id, tail_id) {
                Some(e) => Err(e),
                None => match claim_survivor(removed, before.claimed, rows[0].prev_id) {
                    Err(e) => Err(e),
                    Ok(with_prev) => match claim_survivor(removed, with_prev, rows.last().next_id) {
                        Err(e) => Err(e),
                        Ok(claimed) => {
                            match unless_repeated(before.writes + run_writes(list_number, rows)) {
                                Err(e) => Err(e),
                                Ok(writes) => Ok(RunsState { writes, claimed }),
                            }
                        },
                    },
                },
            },
        },
    }
}

/// What runs write, up to the first that is refused.
pub open spec fn runs_step(
    answers: Answers,
    list_number: i64,
    head_id: i64,
    tail_id: i64,
    removed: Set<i64>,
    runs: Seq<Seq<i64>>,
) -> Result<RunsState, ErrorView>
    decreases runs.len(),
{
    if runs.len() == 0 {
        Ok(RunsState { writes: Seq::empty(), claimed: Set::empty() })
    } else {
        match runs_step(answers, list_number, head_id, tail_id, removed, runs.drop_last()) {
            Err(e) => Err(e),
            Ok(before) => run_step(
                answers,
                list_number,
                head_id,
                tail_id,
                removed,
                before,
                runs.last(),
            ),
        }
    }
}

proof fn lemma_runs_step_stop(
    answers: Answers,
    list_number: i64,
    head_id: i64,
    tail_id: i64,
    removed: Set<i64>,
    runs: Seq<Seq<i64>>,
    n: int,
)
    requires
        0 <= n <= runs.len(),
        runs_step(answers, list_number, head_id, tail_id, removed, runs.take(n)) is Err,
    ensures
        runs_step(answers, list_number, head_id, tail_id, removed, runs) == runs_step(
            answers,
            list_number,
            head_id,
            tail_id,
            removed,
            runs.take(n),
        ),
    decreases runs.len(),
{
    if n == runs.len() {
        assert(runs.take(n) =~= runs);
    } else {
        assert(runs.drop_last().take(n) =~= runs.take(n));
        lemma_runs_step_stop(answers, list_number, head_id, tail_id, removed, runs.drop_last(), n);
    }
}

/// A cleanup in the making.
struct RunValidationState<'a, R: OpReader> {
    reader: &'a mut R,
    list_number: i64,
    head_id: i64,
    tail_id: i64,
    removed_set: BTreeSet<i64>,
    batch_ops: Vec<BatchOp>,
    seen_boundaries: BTreeSet<i64>,
}

impl<'a, R: OpReader> RunValidationState<'a, R> {
    spec fn state(&self) -> RunsState {
        RunsState { writes: batch_view(self.batch_ops@), claimed: self.seen_boundaries@ }
    }

    fn validate_and_materialise_run(&mut self, run: &Vec<i64>) -> (r: Result<(), ChangelogError>)
        requires
            run.len() > 0,
            old(self).list_number > 0,
            !repeats_key(old(self).state().writes),
        ensures
            final(self).reader.answers() == old(self).reader.answers(),
            *final(final(self).reader) == *final(old(self).reader),
            made(old(self).reader.log(), final(self).reader.log(), rows_reads(run@), r is Ok),
            final(self).list_number == old(self).list_number,
            final(self).head_id == old(self).head_id,
            final(self).tail_id == old(self).tail_id,
            final(self).removed_set == old(self).removed_set,
            match run_step(
                old(self).reader.answers(),
                old(self).list_number,
                old(self).head_id,
                old(self).tail_id,
                old(self).removed_set@,
                old(self).state(),
                run@,
            ) {
                Ok(state) => r is Ok && final(self).state() == state && !repeats_key(state.writes),
                Err(e) => r matches Err(x) && x@ == e,
            },
    {
        let rows = read_run(self.reader, self.list_number, run)?;
        proof {
            lemma_run_rows(self.reader.answers(), self.list_number, run@);
        }
        check_run_links(&rows)?;
        let first = rows[0];
        let last = rows[rows.len() - 1];
        if first.prev_id == 0 && self.head_id != first.id {
            return Err(
                refuse(OpFault::RunNotAtHead { row_id: first.id, head_id: self.head_id }),
            );
        }
        if last.next_id == 0 && self.tail_id != last.id {
            return Err(refuse(OpFault::RunNotAtTail { row_id: last.id, tail_id: self.tail_id }));
        }
        if first.prev_id != 0 && first.prev_id == last.next_id {
            return Err(refuse(OpFault::SameSurvivors { survivor: first.prev_id }));
        }
        claim(&self.removed_set, &mut self.seen_boundaries, first.prev_id)?;
        claim(&self.removed_set, &mut self.seen_boundaries, last.next_id)?;
        proof {
            lemma_splice(
                batch_view(self.batch_ops@),
                self.list_number,
                first.prev_id,
                last.next_id,
                rows@,
            );
        }
        materialise_run_writes(
            first.prev_id,
            last.next_id,
            self.list_number,
            &rows,
            &mut self.batch_ops,
        )
    }
}

// ---------- the document ----------

/// What is wrong with the id that an envelope claims for the change, if anything.
pub open spec fn change_id_fault(op_id: i64, current_change_id: u64) -> Option<ErrorView> {
    if current_change_id > i64::MAX {
        Some(refused(OpFaultView::ChangeIdRange { current_change_id }))
    } else if op_id != current_change_id {
        Some(
            refused(
                OpFaultView::ChangeIdMismatch { op_id, current_change_id: current_change_id as i64 },
            ),
        )
    } else {
        None
    }
}

fn validate_current_change_id(op_id: i64, ctx: &OpContext) -> (r: Result<(), ChangelogError>)
    ensures
        match change_id_fault(op_id, ctx.current_change_id) {
            Some(e) => r matches Err(x) && x@ == e,
            None => r is Ok,
        },
{
    let current: u64 = ctx.current_change_id;
    if current > i64::MAX as u64 {
        return Err(refuse(OpFault::ChangeIdRange { current_change_id: current }));
    }
    let current_change_id: i64 = current as i64;
    if op_id != current_change_id {
        return Err(refuse(OpFault::ChangeIdMismatch { op_id, current_change_id }));
    }
    Ok(())
}

/// The list that a document's cell names.
pub open spec fn parent_list_number(answers: Answers, address: AddressView) -> Result<i64, ErrorView> {
    let AddressView { table, row_id, column } = address;
    match answers(ReadOpView::Key(address_key(address))) {
        Err(e) => Err(e@),
        Ok(results) => if results.len() != 1 {
            let found = results.len() as usize;
            Err(refused(OpFaultView::ParentCellCount { table, row_id, column, found }))
        } else if results[0].0 != address_key(address) {
            Err(refused(OpFaultView::ParentCellWrongKey { table, row_id, column }))
        } else {
            op_int(
                OpName::PieceTextCleanupPieces,
                results[0].1,
                Cell { kind: CellKind::ParentCell, id: row_id },
            )
        },
    }
}

fn read_parent_list_number<R: OpReader>(reader: &mut R, address: &PieceTextAddress) -> (r: Result<
    i64,
    ChangelogError,
>)
    ensures
        final(reader).answers() == old(reader).answers(),
        final(reader).log() == old(reader).log().push(ReadOpView::Key(address_key(address@))),
        agrees(r, parent_list_number(old(reader).answers(), address@)),
{
    let PieceTextAddress { table, row_id, column } = address.duplicate();
    let mut read = reader.read(ReadOp::Key(address_storage_key(address)))?;
    let ghost seen = read@;
    assert(seen.len() == read.results.len());
    if read.results.len() != 1 {
        let found: usize = read.results.len();
        return Err(refuse(OpFault::ParentCellCount { table, row_id, column, found }));
    }
    assert(seen[0] == (read.results@[0].0@, read.results@[0].1@));
    let (actual_key, value) = read.results.swap_remove(0);
    if !same_key(&actual_key, &address_storage_key(address)) {
        return Err(refuse(OpFault::ParentCellWrongKey { table, row_id, column }));
    }
    decode_op_int(
        OpName::PieceTextCleanupPieces,
        &value,
        Cell { kind: CellKind::ParentCell, id: row_id },
    )
}

/// What is wrong with the way back from a list to its document, if anything.
pub open spec fn parent_link_fault(answers: Answers, list_number: i64, address: AddressView) -> Option<
    ErrorView,
> {
    let cell = Cell { kind: CellKind::Parent, id: list_number };
    match only_value(
        answers,
        OpName::PieceTextCleanupPieces,
        KeyView::PieceParent { list_number },
        cell,
    ) {
        Err(e) => Some(e),
        Ok(v) => parent_fault(OpName::PieceTextCleanupPieces, list_number, v, cell, address),
    }
}

fn authenticate_piece_text_parent<R: OpReader>(
    reader: &mut R,
    list_number: i64,
    address: &PieceTextAddress,
) -> (r: Result<(), ChangelogError>)
    ensures
        final(reader).answers() == old(reader).answers(),
        final(reader).log() == old(reader).log().push(
            ReadOpView::Key(KeyView::PieceParent { list_number }),
        ),
        match parent_link_fault(old(reader).answers(), list_number, address@) {
            Some(e) => r matches Err(x) && x@ == e,
            None => r is Ok,
        },
{
    let cell = Cell { kind: CellKind::Parent, id: list_number };
    let value = read_only(
        reader,
        OpName::PieceTextCleanupPieces,
        StorageKey::PieceParent { list_number },
        cell,
    )?;
    check_parent(OpName::PieceTextCleanupPieces, list_number, &value, cell, address)
}

/// An endpoint of a document.
pub open spec fn endpoint_id(answers: Answers, key: KeyView, cell: Cell) -> Result<i64, ErrorView> {
    match only_value(answers, OpName::PieceTextCleanupPieces, key, cell) {
        Err(e) => Err(e),
        Ok(v) => op_raw_int(OpName::PieceTextCleanupPieces, v, cell),
    }
}

fn read_raw_i64_key<R: OpReader>(reader: &mut R, key: StorageKey, cell: Cell) -> (r: Result<
    i64,
    ChangelogError,
>)
    ensures
        final(reader).answers() == old(reader).answers(),
        final(reader).log() == old(reader).log().push(ReadOpView::Key(key@)),
        agrees(r, endpoint_id(old(reader).answers(), key@, cell)),
{
    let value = read_only(reader, OpName::PieceTextCleanupPieces, key, cell)?;
    decode_op_raw_int(OpName::PieceTextCleanupPieces, &value, cell)
}

/// The endpoints of the document that a cleanup is for, if the envelope fits it.
pub open spec fn cleanup_endpoints(
    answers: Answers,
    checks: CleanupChecks,
    current_change_id: u64,
    envelope: CleanupPiecesView,
) -> Result<(i64, i64), ErrorView> {
    let list_number = envelope.list_number;
    match change_id_fault(envelope.op_id, current_change_id) {
        Some(e) => Err(e),
        None => match checks.piece_text_columns {
            Err(e) => Err(e@),
            Ok(columns) => if !names_include(columns@, envelope.address.column) {
                Err(
                    refused(
                        OpFaultView::NotPieceText {
                            table: envelope.address.table,
                            column: envelope.address.column,
                        },
                    ),
                )
            } else {
                match parent_list_number(answers, envelope.address) {
                    Err(e) => Err(e),
                    Ok(found) => if found != list_number {
                        Err(
                            refused(
                                OpFaultView::ListNumberMismatch { found, expected: list_number },
                            ),
                        )
                    } else {
                        match parent_link_fault(answers, list_number, envelope.address) {
                            Some(e) => Err(e),
                            None => match endpoint_id(
                                answers,
                                KeyView::PieceHead { list_number },
                                Cell { kind: CellKind::CleanupHead, id: list_number },
                            ) {
                                Err(e) => Err(e),
                                Ok(head_id) => match endpoint_id(
                                    answers,
                                    KeyView::PieceTail { list_number },
                                    Cell { kind: CellKind::CleanupTail, id: list_number },
                                ) {
                                    Err(e) => Err(e),
                                    Ok(tail_id) => Ok((head_id, tail_id)),
                                },
                            },
                        }
                    },
                }
            },
        },
    }
}

fn read_endpoints<R: OpReader>(
    reader: &mut R,
    checks: CleanupChecks,
    ctx: &OpContext,
    envelope: &PieceTextCleanupPiecesEnvelopeV1,
) -> (r: Result<(i64, i64), ChangelogError>)
    ensures
        final(reader).answers() == old(reader).answers(),
        made(
            old(reader).log(),
            final(reader).log(),
            document_reads(envelope.address@, envelope.list_number),
            r is Ok,
        ),
        agrees(
            r,
            cleanup_endpoints(old(reader).answers(), checks, ctx.current_change_id, envelope@),
        ),
{
    proof {
        lemma_document_reads(reader.log(), envelope.address@, envelope.list_number);
    }
    validate_current_change_id(envelope.op_id, ctx)?;
    let columns = checks.piece_text_columns?;
    if !includes_name(&columns, &envelope.address.column) {
        return Err(
            refuse(
                OpFault::NotPieceText {
                    table: envelope.address.table.clone(),
                    column: envelope.address.column.clone(),
                },
            ),
        );
    }
    let found: i64 = read_parent_list_number(reader, &envelope.address)?;
    let list_number: i64 = envelope.list_number;
    if found != list_number {
        return Err(refuse(OpFault::ListNumberMismatch { found, expected: list_number }));
    }
    authenticate_piece_text_parent(reader, list_number, &envelope.address)?;
    let head_id: i64 = read_raw_i64_key(
        reader,
        StorageKey::PieceHead { list_number },
        Cell { kind: CellKind::CleanupHead, id: list_number },
    )?;
    let tail_id: i64 = read_raw_i64_key(
        reader,
        StorageKey::PieceTail { list_number },
        Cell { kind: CellKind::CleanupTail, id: list_number },
    )?;
    Ok((head_id, tail_id))
}

// ---------- the operation ----------

/// The writes of an entry that asks for a cleanup of rows.
pub open spec fn cleanup_operation(
    answers: Answers,
    checks: CleanupChecks,
    current_change_id: u64,
    entry: ChangelogEntry,
) -> Result<Seq<BatchOpView>, ErrorView> {
    match cleanup_pieces_in_message(entry.message@) {
        Err(e) => Err(e),
        Ok(envelope) => match cleanup_endpoints(answers, checks, current_change_id, envelope) {
            Err(e) => Err(e),
            Ok((head_id, tail_id)) => match runs_step(
                answers,
                envelope.list_number,
                head_id,
                tail_id,
                removed_rows(envelope.runs).to_set(),
                envelope.runs,
            ) {
                Err(e) => Err(e),
                Ok(state) => Ok(state.writes),
            },
        },
    }
}

proof fn lemma_removed_rows_split(runs: Seq<Seq<i64>>, n: int)
    requires
        0 <= n <= runs.len(),
    ensures
        removed_rows(runs) == removed_rows(runs.take(n)) + removed_rows(runs.skip(n)),
    decreases runs.len(),
{
    if n == runs.len() {
        assert(runs.take(n) =~= runs);
        assert(runs.skip(n) =~= Seq::empty());
        assert(removed_rows(runs) + Seq::<i64>::empty() =~= removed_rows(runs));
    } else {
        lemma_removed_rows_split(runs.drop_last(), n);
        assert(runs.drop_last().take(n) =~= runs.take(n));
        assert(runs.skip(n).drop_last() =~= runs.drop_last().skip(n));
        assert(runs.skip(n).last() == runs.last());
        assert(removed_rows(runs) =~= removed_rows(runs.take(n)) + removed_rows(runs.skip(n)));
    }
}

/// The reads of a cleanup: the way to the document, and then the rows that go. The
/// rows beside them are not read, and nor is the rest of the document.
pub open spec fn cleanup_reads(entry: ChangelogEntry) -> Seq<ReadOpView> {
    match cleanup_pieces_in_message(entry.message@) {
        Err(_) => Seq::empty(),
        Ok(envelope) => document_reads(envelope.address, envelope.list_number) + rows_reads(
            removed_rows(envelope.runs),
        ),
    }
}

/// The rows of the runs, as a set.
fn removal_set(runs: &Vec<PieceTextCleanupRunV1>) -> (set: BTreeSet<i64>)
    ensures
        set@ == removed_rows(removals_view(runs@)).to_set(),
{
    broadcast use vstd::std_specs::btree::group_btree_axioms;

    let ghost all = removals_view(runs@);
    let mut set: BTreeSet<i64> = BTreeSet::new();
    let mut i: usize = 0;
    assert(removed_rows(all.take(0)).to_set() =~= Set::empty());
    while i < runs.len()
        invariant
            i <= runs.len(),
            all == removals_view(runs@),
            set@ == removed_rows(all.take(i as int)).to_set(),
        decreases runs.len() - i,
    {
        let run = &runs[i].removals;
        let ghost before = removed_rows(all.take(i as int));
        proof {
            assert(all.take(i + 1).drop_last() =~= all.take(i as int));
            assert(before + run@.take(0) =~= before);
        }
        let mut j: usize = 0;
        while j < run.len()
            invariant
                j <= run.len(),
                set@ == (before + run@.take(j as int)).to_set(),
            decreases run.len() - j,
        {
            proof {
                let seen = before + run@.take(j as int);
                let more = before + run@.take(j + 1);
                assert(more =~= seen.push(run@[j as int]));
                assert(more.to_set() =~= seen.to_set().insert(run@[j as int])) by {
                    assert forall|x: i64| #[trigger] more.to_set().contains(x) == seen.to_set().insert(
                        run@[j as int],
                    ).contains(x) by {
                        if seen.contains(x) {
                            assert(more[seen.index_of(x)] == x);
                        }
                        if x == run@[j as int] {
                            assert(more[seen.len() as int] == x);
                        }
                    }
                }
            }
            set.insert(run[j]);
            j = j + 1;
        }
        assert(run@.take(j as int) =~= run@);
        i = i + 1;
    }
    assert(all.take(i as int) =~= all);
    set
}

/// The cleanup of a document's deleted rows.
pub struct PieceTextCleanupPiecesOp;

impl PieceTextCleanupPiecesOp {
    /// Verifies an entry that asks for a cleanup of rows, and gives the writes.
    pub fn extract_and_validate<R: OpReader>(
        entry: &ChangelogEntry,
        reader: &mut R,
        ctx: &OpContext,
        checks: CleanupChecks,
    ) -> (r: Result<OpVerifyResult, ChangelogError>)
        ensures
            final(reader).answers() == old(reader).answers(),
            made(old(reader).log(), final(reader).log(), cleanup_reads(*entry), r is Ok),
            match cleanup_operation(old(reader).answers(), checks, ctx.current_change_id, *entry) {
                Ok(writes) => r matches Ok(result) && result.writes(writes),
                Err(e) => r matches Err(x) && x@ == e,
            },
    {
        broadcast use vstd::std_specs::btree::group_btree_axioms;

        let ghost answers = reader.answers();
        let ghost log = reader.log();
        proof {
            lemma_made_none(log, cleanup_reads(*entry));
        }
        let envelope = PieceTextCleanupPiecesEnvelopeV1::decode_from_entry(entry)?;
        let ghost way = document_reads(envelope.address@, envelope.list_number);
        let ghost rows_wanted = rows_reads(removed_rows(envelope@.runs));
        let endpoints = read_endpoints(reader, checks, ctx, &envelope);
        proof {
            lemma_made_up_to(log, reader.log(), way, rows_wanted, endpoints is Ok);
        }
        let (head_id, tail_id) = endpoints?;
        let ghost middle = reader.log();
        let removed_set = removal_set(&envelope.runs);
        let ghost all = envelope@.runs;
        let ghost removed = removed_set@;
        let ghost list_number = envelope.list_number;
        proof {
            law_cleanup_runs(all);
        }
        let mut state = RunValidationState {
            reader,
            list_number: envelope.list_number,
            head_id,
            tail_id,
            removed_set,
            batch_ops: Vec::new(),
            seen_boundaries: BTreeSet::new(),
        };
        proof {
            assert(state.state().writes =~= Seq::empty());
            lemma_made_none(middle, Seq::empty());
            assert(removed_rows(all.take(0)) =~= Seq::empty());
        }
        let mut i: usize = 0;
        while i < envelope.runs.len()
            invariant
                i <= envelope.runs.len(),
                all == removals_view(envelope.runs@),
                forall|k: int| 0 <= k < all.len() ==> (#[trigger] all[k]).len() > 0,
                *final(state.reader) == *after_borrow(reader),
                answers == old(reader).answers(),
                log == old(reader).log(),
                made(log, middle, way, true),
                made(middle, state.reader.log(), rows_reads(removed_rows(all.take(i as int))), true),
                rows_wanted == rows_reads(removed_rows(all)),
                cleanup_reads(*entry) == way + rows_wanted,
                state.reader.answers() == answers,
                state.list_number == list_number,
                list_number > 0,
                state.head_id == head_id,
                state.tail_id == tail_id,
                state.removed_set@ == removed,
                !repeats_key(state.state().writes),
                runs_step(answers, list_number, head_id, tail_id, removed, all.take(i as int))
                    matches Ok(s) && s == state.state(),
                cleanup_operation(answers, checks, ctx.current_change_id, *entry) == (match runs_step(
                    answers,
                    list_number,
                    head_id,
                    tail_id,
                    removed,
                    all,
                ) {
                    Err(e) => Err::<Seq<BatchOpView>, ErrorView>(e),
                    Ok(s) => Ok(s.writes),
                }),
            decreases envelope.runs.len() - i,
        {
            proof {
                assert(all.take(i + 1).drop_last() =~= all.take(i as int));
                assert(all[i as int].len() > 0);
                if runs_step(answers, list_number, head_id, tail_id, removed, all.take(i + 1)) is Err {
                    lemma_runs_step_stop(
                        answers,
                        list_number,
                        head_id,
                        tail_id,
                        removed,
                        all,
                        i + 1,
                    );
                }
            }
            let ghost so_far = state.reader.log();
            let done = state.validate_and_materialise_run(&envelope.runs[i].removals);
            proof {
                let now = state.reader.log();
                let run = all[i as int];
                let earlier = removed_rows(all.take(i as int));
                lemma_rows_reads_append(earlier, run);
                assert(removed_rows(all.take(i + 1)) == earlier + run);
                lemma_made_then(middle, so_far, now, rows_reads(earlier), rows_reads(run), done is Ok);
                lemma_made_then(log, middle, now, way, rows_reads(earlier + run), done is Ok);
                lemma_removed_rows_split(all, i + 1);
                let later = removed_rows(all.skip(i + 1));
                lemma_rows_reads_append(earlier + run, later);
                lemma_made_up_to(
                    log,
                    now,
                    way + rows_reads(earlier + run),
                    rows_reads(later),
                    done is Ok,
                );
                assert((way + rows_reads(earlier + run)) + rows_reads(later) =~= way + rows_wanted);
            }
            done?;
            i = i + 1;
        }
        assert(all.take(i as int) =~= all);
        proof {
            lemma_made_then(log, middle, state.reader.log(), way, rows_wanted, true);
        }
        Ok(OpVerifyResult::of_writes(state.batch_ops))
    }
}

} // verus!
