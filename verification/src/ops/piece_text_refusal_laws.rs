//! What is said of edits and cleanups that are refused.

use vstd::prelude::*;

use crate::changelog::{ChangelogEntry, ErrorView};
use crate::faults::{OpFaultView, OpName};
use crate::ops::piece_text_acceptance_laws::{
    are_rows_of, beside, cell_at, int_at, is_beside, keeps_document, last_fits, law_row_read, lemma_run_follows,
    lemma_run_removable, lemma_run_step, lemma_runs_accepted, lemma_tree_answers, next_of, prev_of, rule_permits,
    runs_fit, runs_state,
};
use crate::ops::piece_text_cleanup_pieces_op::{
    cleanup_endpoints, cleanup_operation, run_links_fault, run_rows, run_step, runs_step, CleanupChecks, RunsState,
};
use crate::ops::piece_text_buffer_laws::buffer_cell_key;
use crate::ops::piece_text_edit_op::{
    buffer_meta, buffer_owner_fault, buffers_checked, buffers_of, edit_target, law_buffers_read_once, owners_fault,
    ranges_fault, EditChecks,
};
use crate::ops::piece_text_index_laws::{is_removed, piece_cell_key};
use crate::ops::piece_text_tree::{holds, reads_tree, Tree};
use crate::ops::update_plan_laws::is_named;
use crate::piece_text::{AddressView, EnvelopeView, PieceCoord};
use crate::piece_text_cleanup::{cleanup_pieces_in_message, removed_rows, CleanupPiecesView};
use crate::piece_text_envelope_laws::{law_cleanup_pieces_message, lemma_removed_in, named_once};
use crate::piece_text_inserts::lemma_insert_total;
use crate::piece_text_planner::PieceRow;
use crate::piece_text_resolver::piece_row;
use crate::storage::{Answers, KeyView, ValueView};

verus! {

// ---------- edits ----------

/// The list belongs to another cell, which the error names.
pub open spec fn names_owner(tree: Tree, op: OpName, list_number: i64, address: AddressView, e: ErrorView) -> bool {
    tree.contains_key(KeyView::PieceParent { list_number }) && (tree[KeyView::PieceParent {
        list_number,
    }] matches ValueView::Parent(owner) ==> e == ErrorView::Refused(
        op,
        OpFaultView::ParentMismatch {
            list_number,
            owner_table: owner.table,
            owner_row_id: owner.row_id,
            owner_column: owner.column,
            table: address.table,
            row_id: address.row_id,
            column: address.column,
        },
    ))
}

/// Of what is said of an edit whose author may not edit the document: a check that
/// failed says what it says itself, and of several the first. A column that holds no
/// documents is named with its table, an absent cell with its row, a list number that
/// is not positive is named, and of a list that belongs to another cell both cells are.
pub proof fn law_edit_refused(answers: Answers, checks: EditChecks, envelope: EnvelopeView, tree: Tree)
    requires
        reads_tree(answers, tree),
    ensures
        ({
            let op = OpName::PieceTextEdit;
            let address = envelope.address;
            let AddressView { table, row_id, column } = address;
            edit_target(answers, checks, envelope) matches Err(e) ==> {
                if let Err(x) = checks.user_access {
                    e == x@
                } else if let Err(x) = checks.only_via_actions {
                    e == x@
                } else if let Err(x) = checks.piece_text_columns {
                    e == x@
                } else if !is_named(checks.piece_text_columns->Ok_0@, column) {
                    e == ErrorView::Refused(op, OpFaultView::NotPieceText { table, column })
                } else if !tree.contains_key(cell_at(address)) {
                    e == ErrorView::Refused(op, OpFaultView::ParentCellAbsent { table, row_id, column })
                } else if let ValueView::Int(list_number) = tree[cell_at(address)] {
                    if list_number <= 0 {
                        e == ErrorView::Refused(op, OpFaultView::BadListNumber { list_number })
                    } else if tree.contains_key(KeyView::PieceParent { list_number }) && !holds(
                        tree,
                        KeyView::PieceParent { list_number },
                        ValueView::Parent(address),
                    ) {
                        names_owner(tree, op, list_number, address, e)
                    } else if tree.contains_key(KeyView::PieceParent { list_number }) && !rule_permits(
                        checks.write_acl,
                    ) {
                        if let Err(x) = checks.write_acl.has_rule {
                            e == x@
                        } else if let Err(x) = checks.write_acl.values {
                            e == x@
                        } else {
                            checks.write_acl.verdict matches Err(x) && e == x@
                        }
                    } else if exists|head_id: i64, tail_id: i64| #[trigger]
                        keeps_document(tree, address, list_number, head_id, tail_id) {
                        if let Err(x) = checks.piece_next_id {
                            e == x@
                        } else {
                            checks.buffers_next_id matches Err(x) && e == x@
                        }
                    } else {
                        e matches ErrorView::Within(within, _) && within == op
                    }
                } else {
                    e matches ErrorView::Within(within, _) && within == op
                }
            }
        }),
{
    let address = envelope.address;
    lemma_insert_total(envelope.ops);
    lemma_tree_answers(answers, tree, cell_at(address));
    if let Ok(columns) = checks.piece_text_columns {
        assert(is_named(columns@, address.column) == crate::ops::names_include(columns@, address.column));
    }
    if tree.contains_key(cell_at(address)) {
        if let ValueView::Int(list_number) = tree[cell_at(address)] {
            lemma_tree_answers(answers, tree, KeyView::PieceParent { list_number });
            lemma_tree_answers(answers, tree, KeyView::PieceHead { list_number });
            lemma_tree_answers(answers, tree, KeyView::PieceTail { list_number });
            assert forall|head_id: i64, tail_id: i64| #[trigger]
                keeps_document(tree, address, list_number, head_id, tail_id) implies holds(
                tree,
                KeyView::PieceParent { list_number },
                ValueView::Parent(address),
            ) by {}
            if holds(tree, KeyView::PieceParent { list_number }, ValueView::Parent(address)) {
                let head = KeyView::PieceHead { list_number };
                let tail = KeyView::PieceTail { list_number };
                if tree.contains_key(head) && tree.contains_key(tail) {
                    if let (ValueView::Raw(a), ValueView::Raw(b)) = (tree[head], tree[tail]) {
                        if a.len() == 8 && b.len() == 8 {
                            assert(keeps_document(
                                tree,
                                address,
                                list_number,
                                crate::storage::be_i64(a),
                                crate::storage::be_i64(b),
                            ));
                        }
                    }
                }
            }
        }
    }
}

/// One of the rows lies in the buffer.
pub open spec fn has_row_in(coords: Seq<(i64, PieceCoord)>, buffer_id: i64) -> bool {
    exists|i: int| 0 <= i < coords.len() && (#[trigger] coords[i]).1.buffer_id == buffer_id
}

/// What is said of the buffers of rows is so.
pub open spec fn buffer_is_so(
    tree: Tree,
    address: AddressView,
    coords: Seq<(i64, PieceCoord)>,
    fault: OpFaultView,
) -> bool {
    match fault {
        OpFaultView::BufferIdNotPositive { buffer_id } => has_row_in(coords, buffer_id) && buffer_id <= 0,
        OpFaultView::BufferLenRange { buffer_id, len_bytes } => {
            &&& has_row_in(coords, buffer_id)
            &&& int_at(tree, buffer_cell_key(buffer_id, "len_bytes"@)) == Some(len_bytes as i64)
            &&& len_bytes == 0 || len_bytes > 4194304
        },
        OpFaultView::BufferOwner { buffer_id, owner_table, owner_row_id, owner_column, table, row_id, column } => {
            &&& has_row_in(coords, buffer_id)
            &&& holds(tree, buffer_cell_key(buffer_id, "owner_table"@), ValueView::Text(owner_table))
            &&& holds(tree, buffer_cell_key(buffer_id, "owner_row_id"@), ValueView::Int(owner_row_id))
            &&& holds(tree, buffer_cell_key(buffer_id, "owner_column"@), ValueView::Text(owner_column))
            &&& address == (AddressView { table, row_id, column })
            &&& address != (AddressView { table: owner_table, row_id: owner_row_id, column: owner_column })
        },
        OpFaultView::RowRangeOverflow { row_id } => exists|i: int|
            0 <= i < coords.len() && (#[trigger] coords[i]).0 == row_id && coords[i].1.start_byte + coords[i].1.len_bytes
                > 0xffff_ffff,
        OpFaultView::RowPastBuffer { row_id, buffer_id, end, len_bytes } => {
            &&& exists|i: int|
                0 <= i < coords.len() && (#[trigger] coords[i]).0 == row_id && coords[i].1.buffer_id == buffer_id
                    && coords[i].1.start_byte + coords[i].1.len_bytes == end
            &&& int_at(tree, buffer_cell_key(buffer_id, "len_bytes"@)) == Some(len_bytes as i64)
            &&& end > len_bytes
        },
        _ => false,
    }
}

/// A buffer that one of the rows lies in cannot be read, or what is said is so.
pub open spec fn buffer_error_is_so(
    tree: Tree,
    address: AddressView,
    coords: Seq<(i64, PieceCoord)>,
    e: ErrorView,
) -> bool {
    match e {
        ErrorView::Refused(op, fault) => op == OpName::PieceTextEdit && buffer_is_so(tree, address, coords, fault),
        ErrorView::Within(op, _) => op == OpName::PieceTextEdit,
        _ => false,
    }
}

proof fn lemma_owner_refused(
    answers: Answers,
    tree: Tree,
    address: AddressView,
    coords: Seq<(i64, PieceCoord)>,
    id: i64,
)
    requires
        reads_tree(answers, tree),
        has_row_in(coords, id),
    ensures
        buffer_owner_fault(answers, address, id) matches Some(e) ==> buffer_error_is_so(tree, address, coords, e),
        buffer_owner_fault(answers, address, id) is None ==> buffer_meta(answers, id) is Ok && int_at(
            tree,
            buffer_cell_key(id, "len_bytes"@),
        ) == Some(buffer_meta(answers, id)->Ok_0.len_bytes as i64),
{
    lemma_tree_answers(answers, tree, buffer_cell_key(id, "owner_table"@));
    lemma_tree_answers(answers, tree, buffer_cell_key(id, "owner_row_id"@));
    lemma_tree_answers(answers, tree, buffer_cell_key(id, "owner_column"@));
    lemma_tree_answers(answers, tree, buffer_cell_key(id, "author_id"@));
    lemma_tree_answers(answers, tree, buffer_cell_key(id, "len_bytes"@));
}

proof fn lemma_owners_refused(
    answers: Answers,
    tree: Tree,
    address: AddressView,
    coords: Seq<(i64, PieceCoord)>,
    ids: Seq<i64>,
)
    requires
        reads_tree(answers, tree),
        forall|k: int| 0 <= k < ids.len() ==> has_row_in(coords, #[trigger] ids[k]),
    ensures
        owners_fault(answers, address, ids) matches Some(e) ==> buffer_error_is_so(tree, address, coords, e),
        owners_fault(answers, address, ids) is None ==> forall|k: int|
            0 <= k < ids.len() ==> buffer_owner_fault(answers, address, #[trigger] ids[k]) is None,
    decreases ids.len(),
{
    if ids.len() > 0 {
        let rest = ids.drop_last();
        assert forall|k: int| 0 <= k < rest.len() implies has_row_in(coords, #[trigger] rest[k]) by {
            assert(rest[k] == ids[k]);
        }
        lemma_owners_refused(answers, tree, address, coords, rest);
        assert(ids[ids.len() - 1] == ids.last());
        lemma_owner_refused(answers, tree, address, coords, ids.last());
        if owners_fault(answers, address, ids) is None {
            assert forall|k: int| 0 <= k < ids.len() implies buffer_owner_fault(
                answers,
                address,
                #[trigger] ids[k],
            ) is None by {
                if k < rest.len() {
                    assert(rest[k] == ids[k]);
                }
            }
        }
    }
}

proof fn lemma_ranges_refused(
    answers: Answers,
    tree: Tree,
    address: AddressView,
    coords: Seq<(i64, PieceCoord)>,
    n: int,
)
    requires
        reads_tree(answers, tree),
        0 <= n <= coords.len(),
        forall|i: int|
            0 <= i < coords.len() ==> buffer_owner_fault(answers, address, (#[trigger] coords[i]).1.buffer_id) is None,
    ensures
        ranges_fault(answers, coords.take(n)) matches Some(e) ==> buffer_error_is_so(tree, address, coords, e),
    decreases n,
{
    if n > 0 {
        let some = coords.take(n);
        assert(some.drop_last() =~= coords.take(n - 1));
        lemma_ranges_refused(answers, tree, address, coords, n - 1);
        let (row_id, coord) = coords[n - 1];
        assert(some.last() == coords[n - 1]);
        assert(coord.end() == coord.start_byte + coord.len_bytes);
        assert(has_row_in(coords, coord.buffer_id));
        lemma_owner_refused(answers, tree, address, coords, coord.buffer_id);
    }
}

/// Of rows that do not pass the check of their buffers is said what is so: which buffer
/// has no id or no length, to which other cell it belongs, or which row ends where,
/// past the end of which buffer.
pub proof fn law_buffers_refused(
    answers: Answers,
    address: AddressView,
    coords: Seq<(i64, PieceCoord)>,
    tree: Tree,
)
    requires
        reads_tree(answers, tree),
    ensures
        buffers_checked(answers, address, coords) matches Err(e) ==> buffer_error_is_so(tree, address, coords, e),
{
    let ids = buffers_of(coords);
    law_buffers_read_once(coords);
    assert forall|k: int| 0 <= k < ids.len() implies has_row_in(coords, #[trigger] ids[k]) by {
        assert(ids.contains(ids[k]));
    }
    lemma_owners_refused(answers, tree, address, coords, ids);
    if owners_fault(answers, address, ids) is None {
        assert forall|i: int| 0 <= i < coords.len() implies buffer_owner_fault(
            answers,
            address,
            (#[trigger] coords[i]).1.buffer_id,
        ) is None by {
            let id = coords[i].1.buffer_id;
            assert(ids.contains(id));
            assert(buffer_owner_fault(answers, address, ids[ids.index_of(id)]) is None);
        }
        lemma_ranges_refused(answers, tree, address, coords, coords.len() as int);
        assert(coords.take(coords.len() as int) =~= coords);
    }
}

// ---------- cleanups ----------

/// Of what is said of a cleanup that is not for this change, or for a document that is
/// not there: the ids of both changes, the table and column that hold no documents,
/// both lists where the cell names another, and both cells where the list belongs to
/// another. A check that failed says what it says itself.
pub proof fn law_cleanup_misplaced(
    answers: Answers,
    checks: CleanupChecks,
    current_change_id: u64,
    envelope: CleanupPiecesView,
    tree: Tree,
)
    requires
        reads_tree(answers, tree),
    ensures
        ({
            let op = OpName::PieceTextCleanupPieces;
            let address = envelope.address;
            let list_number = envelope.list_number;
            let AddressView { table, row_id, column } = address;
            cleanup_endpoints(answers, checks, current_change_id, envelope) matches Err(e) ==> {
                if current_change_id > 0x7fff_ffff_ffff_ffff {
                    e == ErrorView::Refused(op, OpFaultView::ChangeIdRange { current_change_id })
                } else if envelope.op_id != current_change_id {
                    e == ErrorView::Refused(
                        op,
                        OpFaultView::ChangeIdMismatch {
                            op_id: envelope.op_id,
                            current_change_id: current_change_id as i64,
                        },
                    )
                } else if let Err(x) = checks.piece_text_columns {
                    e == x@
                } else if !is_named(checks.piece_text_columns->Ok_0@, column) {
                    e == ErrorView::Refused(op, OpFaultView::NotPieceText { table, column })
                } else if !tree.contains_key(cell_at(address)) {
                    e == ErrorView::Refused(op, OpFaultView::ParentCellCount { table, row_id, column, found: 0 })
                } else if let ValueView::Int(found) = tree[cell_at(address)] {
                    if found != list_number {
                        e == ErrorView::Refused(op, OpFaultView::ListNumberMismatch { found, expected: list_number })
                    } else if tree.contains_key(KeyView::PieceParent { list_number }) && !holds(
                        tree,
                        KeyView::PieceParent { list_number },
                        ValueView::Parent(address),
                    ) {
                        names_owner(tree, op, list_number, address, e)
                    } else {
                        e matches ErrorView::Within(within, _) && within == op
                    }
                } else {
                    e matches ErrorView::Within(within, _) && within == op
                }
            }
        }),
{
    let address = envelope.address;
    let list_number = envelope.list_number;
    lemma_tree_answers(answers, tree, cell_at(address));
    lemma_tree_answers(answers, tree, KeyView::PieceParent { list_number });
    lemma_tree_answers(answers, tree, KeyView::PieceHead { list_number });
    lemma_tree_answers(answers, tree, KeyView::PieceTail { list_number });
    if let Ok(columns) = checks.piece_text_columns {
        assert(is_named(columns@, address.column) == crate::ops::names_include(columns@, address.column));
    }
}

/// One of the runs has the one row right before the other.
pub open spec fn is_followed(runs: Seq<Seq<i64>>, first: i64, second: i64) -> bool {
    exists|i: int, j: int, k: int|
        #![trigger runs[i][j], runs[i][k]]
        0 <= i < runs.len() && 0 <= j && k == j + 1 && k < runs[i].len() && runs[i][j] == first && runs[i][k]
            == second
}

/// One of the runs starts with the row.
pub open spec fn starts_run(runs: Seq<Seq<i64>>, id: i64) -> bool {
    exists|i: int| 0 <= i < runs.len() && (#[trigger] runs[i])[0] == id
}

/// One of the runs ends with the row.
pub open spec fn ends_run(runs: Seq<Seq<i64>>, id: i64) -> bool {
    exists|i: int| 0 <= i < runs.len() && (#[trigger] runs[i]).last() == id
}

/// The row is on both sides of a run.
pub open spec fn is_around(tree: Tree, runs: Seq<Seq<i64>>, id: i64) -> bool {
    exists|i: int|
        0 <= i < runs.len() && beside(tree, #[trigger] runs[i], true) == id && beside(tree, runs[i], false) == id
}

/// The row is beside two runs.
pub open spec fn is_shared(tree: Tree, runs: Seq<Seq<i64>>, id: i64) -> bool {
    exists|i: int, a: bool, k: int, b: bool|
        0 <= i < k < runs.len() && #[trigger] beside(tree, runs[i], a) == id && #[trigger] beside(tree, runs[k], b)
            == id
}

/// What a refusal says of the runs is so.
pub open spec fn is_so(
    tree: Tree,
    list_number: i64,
    head_id: i64,
    tail_id: i64,
    runs: Seq<Seq<i64>>,
    fault: OpFaultView,
) -> bool {
    match fault {
        OpFaultView::RemovedOtherList { row_id, found_list, list_number: expected } => {
            &&& is_removed(runs, row_id)
            &&& int_at(tree, piece_cell_key(row_id, "list_number"@)) == Some(found_list)
            &&& found_list != list_number
            &&& expected == list_number
        },
        OpFaultView::RemovedLive { row_id } => {
            &&& is_removed(runs, row_id)
            &&& int_at(tree, piece_cell_key(row_id, "tombstone"@)) == Some(0i64)
        },
        OpFaultView::RemovedBuffer { row_id, buffer_id } => {
            &&& is_removed(runs, row_id)
            &&& int_at(tree, piece_cell_key(row_id, "buffer_id"@)) == Some(buffer_id)
            &&& buffer_id <= 0
        },
        OpFaultView::RemovedUnaligned { row_id, start_byte, len_bytes } => {
            &&& is_removed(runs, row_id)
            &&& int_at(tree, piece_cell_key(row_id, "start_byte"@)) == Some(start_byte as i64)
            &&& int_at(tree, piece_cell_key(row_id, "len_bytes"@)) == Some(len_bytes as i64)
            &&& start_byte % 4 != 0 || len_bytes % 4 != 0
        },
        OpFaultView::RemovedNext { row_id, next_id, expected } => {
            is_followed(runs, row_id, expected) && next_id == next_of(tree, row_id) && next_id != expected
        },
        OpFaultView::RemovedPrev { row_id, prev_id, expected } => {
            is_followed(runs, expected, row_id) && prev_id == prev_of(tree, row_id) && prev_id != expected
        },
        OpFaultView::RunNotAtHead { row_id, head_id: head } => {
            starts_run(runs, row_id) && prev_of(tree, row_id) == 0 && head == head_id && row_id != head
        },
        OpFaultView::RunNotAtTail { row_id, tail_id: tail } => {
            ends_run(runs, row_id) && next_of(tree, row_id) == 0 && tail == tail_id && row_id != tail
        },
        OpFaultView::SameSurvivors { survivor } => survivor != 0 && is_around(tree, runs, survivor),
        OpFaultView::SurvivorRemoved { survivor } => is_removed(runs, survivor) && (is_beside(
            tree,
            runs,
            survivor,
            true,
        ) || is_beside(tree, runs, survivor, false)),
        OpFaultView::SurvivorShared { survivor } => survivor != 0 && is_shared(tree, runs, survivor),
        _ => false,
    }
}

/// A row of the runs cannot be read, and the error is that of reading it.
pub open spec fn is_unreadable(answers: Answers, runs: Seq<Seq<i64>>, e: ErrorView) -> bool {
    exists|id: i64| #[trigger]
        is_removed(runs, id) && (piece_row(answers, id) matches Err(x) && e == ErrorView::Within(
            OpName::PieceTextCleanupPieces,
            Box::new(x@),
        ))
}

/// The error says of the runs what is so.
pub open spec fn says_so(
    answers: Answers,
    tree: Tree,
    list_number: i64,
    head_id: i64,
    tail_id: i64,
    runs: Seq<Seq<i64>>,
    e: ErrorView,
) -> bool {
    match e {
        ErrorView::Refused(op, fault) => op == OpName::PieceTextCleanupPieces && is_so(
            tree,
            list_number,
            head_id,
            tail_id,
            runs,
            fault,
        ),
        _ => is_unreadable(answers, runs, e),
    }
}

proof fn lemma_rows_refused(
    answers: Answers,
    tree: Tree,
    list_number: i64,
    head_id: i64,
    tail_id: i64,
    runs: Seq<Seq<i64>>,
    i: int,
    m: int,
)
    requires
        reads_tree(answers, tree),
        0 <= i < runs.len(),
        0 <= m <= runs[i].len(),
    ensures
        run_rows(answers, list_number, runs[i].take(m)) matches Err(e) ==> says_so(
            answers,
            tree,
            list_number,
            head_id,
            tail_id,
            runs,
            e,
        ),
    decreases m,
{
    if m > 0 {
        let run = runs[i].take(m);
        assert(run.drop_last() =~= runs[i].take(m - 1));
        lemma_rows_refused(answers, tree, list_number, head_id, tail_id, runs, i, m - 1);
        let id = runs[i][m - 1];
        assert(run.last() == id);
        assert(is_removed(runs, id));
        law_row_read(answers, tree, id);
        if let Ok(row) = piece_row(answers, id) {
            assert(row.coord.aligned() == (row.coord.start_byte % 4 == 0 && row.coord.len_bytes % 4 == 0));
        }
    }
}

proof fn lemma_links_refused(
    answers: Answers,
    tree: Tree,
    list_number: i64,
    head_id: i64,
    tail_id: i64,
    runs: Seq<Seq<i64>>,
    i: int,
    rows: Seq<PieceRow>,
    m: int,
)
    requires
        0 <= i < runs.len(),
        are_rows_of(answers, tree, runs[i], rows),
        0 <= m <= rows.len(),
    ensures
        run_links_fault(rows.take(m)) matches Some(e) ==> says_so(
            answers,
            tree,
            list_number,
            head_id,
            tail_id,
            runs,
            e,
        ),
    decreases m,
{
    if m >= 2 {
        let some = rows.take(m);
        assert(some.drop_last() =~= rows.take(m - 1));
        lemma_links_refused(answers, tree, list_number, head_id, tail_id, runs, i, rows, m - 1);
        assert(some[some.len() - 2] == rows[m - 2]);
        assert(some.last() == rows[m - 1]);
        assert(rows[m - 2].id == runs[i][m - 2] && rows[m - 1].id == runs[i][m - 1]);
        assert(is_followed(runs, runs[i][m - 2], runs[i][m - 1]));
    }
}

proof fn lemma_runs_refused(
    answers: Answers,
    tree: Tree,
    list_number: i64,
    head_id: i64,
    tail_id: i64,
    removed: Set<i64>,
    runs: Seq<Seq<i64>>,
    n: int,
)
    requires
        reads_tree(answers, tree),
        0 <= n <= runs.len(),
        named_once(runs),
        forall|i: int| 0 <= i < runs.len() ==> (#[trigger] runs[i]).len() > 0,
        forall|id: i64| #[trigger] is_removed(runs, id) <==> removed.contains(id),
    ensures
        runs_step(answers, list_number, head_id, tail_id, removed, runs.take(n)) matches Err(e) ==> says_so(
            answers,
            tree,
            list_number,
            head_id,
            tail_id,
            runs,
            e,
        ),
    decreases n,
{
    if n > 0 {
        let some = runs.take(n);
        let rest = runs.take(n - 1);
        let run = runs[n - 1];
        assert(some.drop_last() =~= rest);
        assert(some.last() == run);
        lemma_runs_refused(answers, tree, list_number, head_id, tail_id, removed, runs, n - 1);
        lemma_some_runs(runs, removed, n);
        lemma_some_runs(runs, removed, n - 1);
        lemma_runs_accepted(answers, tree, list_number, head_id, tail_id, removed, rest);
        if let Ok(before) = runs_step(answers, list_number, head_id, tail_id, removed, rest) {
            lemma_run_refused(answers, tree, list_number, head_id, tail_id, removed, runs, n, before);
        }
    }
}

/// What holds of runs holds of the first of them.
proof fn lemma_some_runs(runs: Seq<Seq<i64>>, removed: Set<i64>, n: int)
    requires
        0 <= n <= runs.len(),
        named_once(runs),
        forall|i: int| 0 <= i < runs.len() ==> (#[trigger] runs[i]).len() > 0,
        forall|id: i64| #[trigger] is_removed(runs, id) <==> removed.contains(id),
    ensures
        named_once(runs.take(n)),
        forall|i: int| 0 <= i < n ==> (#[trigger] runs.take(n)[i]).len() > 0,
        forall|id: i64| #[trigger] is_removed(runs.take(n), id) ==> removed.contains(id),
{
    let some = runs.take(n);
    assert forall|i: int, j: int, k: int, l: int|
        #![trigger some[i][j], some[k][l]]
        0 <= i < some.len() && 0 <= j < some[i].len() && 0 <= k < some.len() && 0 <= l < some[k].len() && some[i][j]
            == some[k][l] implies i == k && j == l by {
        assert(runs[i][j] == runs[k][l]);
    }
    assert forall|i: int| 0 <= i < n implies (#[trigger] some[i]).len() > 0 by {
        assert(some[i] == runs[i]);
    }
    assert forall|id: i64| #[trigger] is_removed(some, id) implies removed.contains(id) by {
        let (i, j) = choose|i: int, j: int|
            0 <= i < some.len() && 0 <= j < some[i].len() && #[trigger] some[i][j] == id;
        assert(runs[i][j] == id);
        assert(is_removed(runs, id));
    }
}

proof fn lemma_run_refused(
    answers: Answers,
    tree: Tree,
    list_number: i64,
    head_id: i64,
    tail_id: i64,
    removed: Set<i64>,
    runs: Seq<Seq<i64>>,
    n: int,
    before: RunsState,
)
    requires
        reads_tree(answers, tree),
        0 < n <= runs.len(),
        forall|i: int| 0 <= i < runs.len() ==> (#[trigger] runs[i]).len() > 0,
        forall|id: i64| #[trigger] is_removed(runs, id) <==> removed.contains(id),
        named_once(runs.take(n)),
        forall|i: int| 0 <= i < n ==> (#[trigger] runs.take(n)[i]).len() > 0,
        forall|id: i64| #[trigger] is_removed(runs.take(n), id) ==> removed.contains(id),
        runs_fit(tree, list_number, head_id, tail_id, runs.take(n - 1), removed),
        runs_state(tree, list_number, runs.take(n - 1), before),
    ensures
        run_step(answers, list_number, head_id, tail_id, removed, before, runs[n - 1]) matches Err(e) ==> says_so(
            answers,
            tree,
            list_number,
            head_id,
            tail_id,
            runs,
            e,
        ),
{
    let some = runs.take(n);
    let rest = runs.take(n - 1);
    let run = runs[n - 1];
    assert(some.drop_last() =~= rest);
    assert(some.last() == run);
    assert(run.take(run.len() as int) =~= run);
    lemma_rows_refused(answers, tree, list_number, head_id, tail_id, runs, n - 1, run.len() as int);
    lemma_run_removable(answers, tree, list_number, run);
    lemma_run_step(answers, tree, list_number, head_id, tail_id, removed, some, before);
    if let Ok(rows) = run_rows(answers, list_number, run) {
        assert(rows.take(rows.len() as int) =~= rows);
        lemma_links_refused(
            answers,
            tree,
            list_number,
            head_id,
            tail_id,
            runs,
            n - 1,
            rows,
            rows.len() as int,
        );
        lemma_run_follows(answers, tree, run, rows);
        let prev = beside(tree, run, true);
        let next = beside(tree, run, false);
        assert(rows.last() == rows[rows.len() - 1]);
        assert(run.last() == run[run.len() - 1]);
        assert(rows[0].id == run[0] && rows[rows.len() - 1].id == run.last());
        assert(rows[0].prev_id == prev && rows.last().next_id == next);
        assert(starts_run(runs, run[0]));
        assert(ends_run(runs, run.last()));
        assert(prev == next ==> is_around(tree, runs, prev));
        assert(prev != 0 ==> is_beside(tree, runs, prev, true));
        assert(next != 0 ==> is_beside(tree, runs, next, false));
        assert forall|id: i64, b: bool| #[trigger] before.claimed.contains(id) && #[trigger] beside(tree, run, b)
            == id implies is_shared(tree, runs, id) && id != 0 by {
            let a = is_beside(tree, rest, id, true);
            let i = choose|i: int| 0 <= i < rest.len() && beside(tree, #[trigger] rest[i], a) == id;
            assert(rest[i] == runs[i]);
            assert(beside(tree, runs[i], a) == id && beside(tree, runs[n - 1], b) == id);
        }
        if let Err(e) = run_step(answers, list_number, head_id, tail_id, removed, before, run) {
            assert(!last_fits(tree, list_number, head_id, tail_id, some, removed));
            assert(beside(tree, run, true) == prev && beside(tree, run, false) == next);
            if prev != 0 {
                assert(before.claimed.contains(prev) <==> is_beside(tree, rest, prev, true) || is_beside(
                    tree,
                    rest,
                    prev,
                    false,
                ));
            }
            if next != 0 {
                assert(before.claimed.contains(next) <==> is_beside(tree, rest, next, true) || is_beside(
                    tree,
                    rest,
                    next,
                    false,
                ));
            }
        }
    }
}

/// Of a cleanup that is for a document that is there, and is refused, is said what is
/// so: which of its rows cannot be read, is of another list, is not deleted, has no
/// buffer or is not on whole scalars; between which two of its rows a link is missing;
/// which run is not at the end of the document; or which row beside a run goes too, or
/// is beside two, or on both sides of one.
pub proof fn law_cleanup_refused(
    answers: Answers,
    checks: CleanupChecks,
    current_change_id: u64,
    entry: ChangelogEntry,
    tree: Tree,
)
    requires
        reads_tree(answers, tree),
        cleanup_pieces_in_message(entry.message@) is Ok,
    ensures
        ({
            let envelope = cleanup_pieces_in_message(entry.message@)->Ok_0;
            cleanup_endpoints(answers, checks, current_change_id, envelope) matches Ok((head_id, tail_id)) ==> {
                &&& keeps_document(tree, envelope.address, envelope.list_number, head_id, tail_id)
                &&& cleanup_operation(answers, checks, current_change_id, entry) matches Err(e) ==> says_so(
                    answers,
                    tree,
                    envelope.list_number,
                    head_id,
                    tail_id,
                    envelope.runs,
                    e,
                )
            }
        }),
{
    let envelope = cleanup_pieces_in_message(entry.message@)->Ok_0;
    let list_number = envelope.list_number;
    let runs = envelope.runs;
    law_cleanup_pieces_message(entry.message@);
    lemma_tree_answers(answers, tree, cell_at(envelope.address));
    lemma_tree_answers(answers, tree, KeyView::PieceParent { list_number });
    lemma_tree_answers(answers, tree, KeyView::PieceHead { list_number });
    lemma_tree_answers(answers, tree, KeyView::PieceTail { list_number });
    if let Ok((head_id, tail_id)) = cleanup_endpoints(answers, checks, current_change_id, envelope) {
        let removed = removed_rows(runs).to_set();
        assert forall|id: i64| #[trigger] is_removed(runs, id) <==> removed.contains(id) by {
            lemma_removed_in(runs, id);
        }
        lemma_runs_refused(answers, tree, list_number, head_id, tail_id, removed, runs, runs.len() as int);
        assert(runs.take(runs.len() as int) =~= runs);
    }
}

} // verus!
