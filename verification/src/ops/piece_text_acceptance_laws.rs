//! When edits and cleanups are accepted.

use vstd::prelude::*;

use crate::changelog::ChangelogEntry;
use crate::ops::piece_text_buffer_laws::buffer_cell_key;
use crate::ops::piece_text_cleanup_pieces_op::{
    backward_link, cleanup_endpoints, cleanup_operation, forward_link, removed_row_fault, row_deletes, rows_deletes,
    run_links_fault, run_rows, run_step, run_writes, runs_step, CleanupChecks, RunsState,
};
use crate::ops::piece_text_edit_op::{
    buffer_meta, buffer_owner_fault, buffers_of, edit_target, law_buffers_read_once, owners_fault,
    ranges_fault, AclChecks, EditChecks,
};
use crate::ops::piece_text_index_laws::{is_removed, piece_cell_key};
use crate::ops::piece_text_tree::{holds, lemma_piece_keys, reads_tree, Tree};
use crate::ops::update_plan_laws::is_named;
use crate::ops::{lemma_first_repeated, repeats_key};
use crate::piece_text::{AddressView, EnvelopeView, PieceCoord};
use crate::piece_text_cleanup::{cleanup_pieces_in_message, removed_rows};
use crate::piece_text_envelope_laws::{law_cleanup_pieces_message, lemma_removed_in, named_once};
use crate::piece_text_inserts::{inserts_before, lemma_insert_total};
use crate::piece_text_planner::PieceRow;
use crate::piece_text_resolver::{int_column, piece_columns, piece_key, piece_row, PieceColumn};
use crate::storage::{be_i64, Answers, BatchOpView, KeyView, ReadOpView, ValueView};

verus! {

// ---------- the way to a document ----------

/// The key of the cell that an address names.
pub open spec fn cell_at(address: AddressView) -> KeyView {
    KeyView::Column { table: address.table, row_id: address.row_id, column: address.column }
}

/// The tree has eight bytes under the key, and they stand for the integer.
pub open spec fn holds_id(tree: Tree, key: KeyView, id: i64) -> bool {
    tree.contains_key(key) && (tree[key] matches ValueView::Raw(bytes) && bytes.len() == 8 && be_i64(bytes) == id)
}

/// The tree keeps a document in the cell: the cell names a list, the list's parent
/// is the cell, and the list has both ends.
pub open spec fn keeps_document(
    tree: Tree,
    address: AddressView,
    list_number: i64,
    head_id: i64,
    tail_id: i64,
) -> bool {
    &&& holds(tree, cell_at(address), ValueView::Int(list_number))
    &&& holds(tree, KeyView::PieceParent { list_number }, ValueView::Parent(address))
    &&& holds_id(tree, KeyView::PieceHead { list_number }, head_id)
    &&& holds_id(tree, KeyView::PieceTail { list_number }, tail_id)
}

/// The rule of the table lets the author write, or there is none.
pub open spec fn rule_permits(acl: AclChecks) -> bool {
    acl.has_rule matches Ok(has_rule) && (has_rule ==> acl.values is Ok && acl.verdict is Ok)
}

pub proof fn lemma_tree_answers(answers: Answers, tree: Tree, key: KeyView)
    requires
        reads_tree(answers, tree),
    ensures
        answers(ReadOpView::Key(key)) is Ok,
        tree.contains_key(key) ==> answers(ReadOpView::Key(key))->Ok_0 == seq![(key, tree[key])],
        !tree.contains_key(key) ==> answers(ReadOpView::Key(key))->Ok_0.len() == 0,
{
}

/// An edit is for a document that its author may edit if and only if every check
/// passed, the column holds documents, the tree keeps a document in the cell, under
/// a positive list number, the table's rule permits it, and the next free ids are
/// known: that of buffers only where something is inserted. It starts from the ends
/// of that document and from these ids.
pub proof fn law_edit_permitted(answers: Answers, checks: EditChecks, envelope: EnvelopeView, tree: Tree)
    requires
        reads_tree(answers, tree),
    ensures
        ({
            let address = envelope.address;
            let total = inserts_before(envelope.ops, envelope.ops.len() as int);
            &&& edit_target(answers, checks, envelope) is Ok <==> {
                &&& checks.user_access is Ok
                &&& checks.only_via_actions is Ok
                &&& checks.piece_text_columns matches Ok(columns)
                &&& is_named(columns@, address.column)
                &&& exists|list_number: i64, head_id: i64, tail_id: i64|
                    list_number > 0 && #[trigger] keeps_document(tree, address, list_number, head_id, tail_id)
                &&& rule_permits(checks.write_acl)
                &&& checks.piece_next_id is Ok
                &&& total > 0 ==> checks.buffers_next_id is Ok
            }
            &&& edit_target(answers, checks, envelope) matches Ok(target) ==> {
                &&& target.list_number > 0
                &&& keeps_document(tree, address, target.list_number, target.head_id, target.tail_id)
                &&& target.next_piece_id == checks.piece_next_id->Ok_0
                &&& total > 0 ==> target.next_buffer_id == checks.buffers_next_id->Ok_0
            }
        }),
{
    let address = envelope.address;
    lemma_insert_total(envelope.ops);
    lemma_tree_answers(answers, tree, cell_at(address));
    if let Ok(columns) = checks.piece_text_columns {
        assert(is_named(columns@, address.column) == crate::ops::names_include(columns@, address.column));
    }
    assert forall|list_number: i64, head_id: i64, tail_id: i64| #[trigger]
        keeps_document(tree, address, list_number, head_id, tail_id) implies tree[cell_at(address)]
        == ValueView::Int(list_number) by {}
    if tree.contains_key(cell_at(address)) {
        if let ValueView::Int(list_number) = tree[cell_at(address)] {
            lemma_tree_answers(answers, tree, KeyView::PieceParent { list_number });
            lemma_tree_answers(answers, tree, KeyView::PieceHead { list_number });
            lemma_tree_answers(answers, tree, KeyView::PieceTail { list_number });
            if let Ok(target) = edit_target(answers, checks, envelope) {
                assert(keeps_document(tree, address, list_number, target.head_id, target.tail_id));
            }
        }
    }
}

// ---------- buffers that rows lie in ----------

/// The tree has a buffer of the document that is long enough for the range.
pub open spec fn lies_in_own_buffer(tree: Tree, address: AddressView, coord: PieceCoord) -> bool {
    let id = coord.buffer_id;
    &&& id > 0
    &&& holds(tree, buffer_cell_key(id, "owner_table"@), ValueView::Text(address.table))
    &&& holds(tree, buffer_cell_key(id, "owner_row_id"@), ValueView::Int(address.row_id))
    &&& holds(tree, buffer_cell_key(id, "owner_column"@), ValueView::Text(address.column))
    &&& tree.contains_key(buffer_cell_key(id, "author_id"@)) && tree[buffer_cell_key(id, "author_id"@)] is Int
    &&& tree.contains_key(buffer_cell_key(id, "len_bytes"@))
    &&& tree[buffer_cell_key(id, "len_bytes"@)] matches ValueView::Int(len)
    &&& 0 < len <= 4194304
    &&& coord.start_byte + coord.len_bytes <= len
}

proof fn lemma_owned(answers: Answers, tree: Tree, address: AddressView, coord: PieceCoord)
    requires
        reads_tree(answers, tree),
    ensures
        buffer_owner_fault(answers, address, coord.buffer_id) is None && coord.end() <= buffer_meta(
            answers,
            coord.buffer_id,
        )->Ok_0.len_bytes <==> lies_in_own_buffer(tree, address, coord),
        buffer_owner_fault(answers, address, coord.buffer_id) is None ==> buffer_meta(
            answers,
            coord.buffer_id,
        )->Ok_0.len_bytes <= 4194304,
{
    let id = coord.buffer_id;
    lemma_tree_answers(answers, tree, buffer_cell_key(id, "owner_table"@));
    lemma_tree_answers(answers, tree, buffer_cell_key(id, "owner_row_id"@));
    lemma_tree_answers(answers, tree, buffer_cell_key(id, "owner_column"@));
    lemma_tree_answers(answers, tree, buffer_cell_key(id, "author_id"@));
    lemma_tree_answers(answers, tree, buffer_cell_key(id, "len_bytes"@));
}

proof fn lemma_owners(answers: Answers, address: AddressView, ids: Seq<i64>)
    ensures
        owners_fault(answers, address, ids) is None <==> forall|i: int|
            0 <= i < ids.len() ==> buffer_owner_fault(answers, address, #[trigger] ids[i]) is None,
    decreases ids.len(),
{
    if ids.len() > 0 {
        let rest = ids.drop_last();
        lemma_owners(answers, address, rest);
        assert(ids[ids.len() - 1] == ids.last());
        if owners_fault(answers, address, ids) is None {
            assert forall|i: int| 0 <= i < ids.len() implies buffer_owner_fault(
                answers,
                address,
                #[trigger] ids[i],
            ) is None by {
                if i < rest.len() {
                    assert(rest[i] == ids[i]);
                }
            }
        } else if owners_fault(answers, address, rest) is Some {
            let i = choose|i: int|
                0 <= i < rest.len() && buffer_owner_fault(answers, address, #[trigger] rest[i]) is Some;
            assert(ids[i] == rest[i]);
        }
    }
}

proof fn lemma_ranges(answers: Answers, coords: Seq<(i64, PieceCoord)>)
    requires
        forall|i: int|
            0 <= i < coords.len() ==> buffer_meta(
                answers,
                (#[trigger] coords[i]).1.buffer_id,
            )->Ok_0.len_bytes <= 4194304,
    ensures
        ranges_fault(answers, coords) is None <==> forall|i: int|
            0 <= i < coords.len() ==> (#[trigger] coords[i]).1.end() <= buffer_meta(
                answers,
                coords[i].1.buffer_id,
            )->Ok_0.len_bytes,
    decreases coords.len(),
{
    if coords.len() > 0 {
        let rest = coords.drop_last();
        assert forall|i: int| 0 <= i < rest.len() implies buffer_meta(
            answers,
            (#[trigger] rest[i]).1.buffer_id,
        )->Ok_0.len_bytes <= 4194304 by {
            assert(rest[i] == coords[i]);
        }
        lemma_ranges(answers, rest);
        assert(coords[coords.len() - 1] == coords.last());
        if ranges_fault(answers, coords) is None {
            assert forall|i: int| 0 <= i < coords.len() implies (#[trigger] coords[i]).1.end() <= buffer_meta(
                answers,
                coords[i].1.buffer_id,
            )->Ok_0.len_bytes by {
                if i < rest.len() {
                    assert(rest[i] == coords[i]);
                }
            }
        } else if ranges_fault(answers, rest) is Some {
            let i = choose|i: int|
                0 <= i < rest.len() && !((#[trigger] rest[i]).1.end() <= buffer_meta(
                    answers,
                    rest[i].1.buffer_id,
                )->Ok_0.len_bytes);
            assert(coords[i] == rest[i]);
        }
    }
}

/// Rows pass the check of their buffers if and only if each lies in a buffer of the
/// document. Each buffer is counted once.
pub proof fn law_buffers_checked(
    answers: Answers,
    address: AddressView,
    coords: Seq<(i64, PieceCoord)>,
    tree: Tree,
)
    requires
        reads_tree(answers, tree),
    ensures
        ({
            let checked = crate::ops::piece_text_edit_op::buffers_checked(answers, address, coords);
            &&& checked is Ok <==> forall|i: int|
                0 <= i < coords.len() ==> lies_in_own_buffer(tree, address, (#[trigger] coords[i]).1)
            &&& checked matches Ok(count) ==> exists|ids: Seq<i64>|
                #![trigger ids.no_duplicates()]
                ids.no_duplicates() && count == ids.len() as usize && forall|id: i64|
                    #[trigger] ids.contains(id) <==> exists|i: int|
                        0 <= i < coords.len() && (#[trigger] coords[i]).1.buffer_id == id
        }),
{
    let ids = buffers_of(coords);
    law_buffers_read_once(coords);
    lemma_owners(answers, address, ids);
    assert(ids.no_duplicates()) by {
        assert forall|i: int, j: int| 0 <= i < ids.len() && 0 <= j < ids.len() && i != j implies ids[i]
            != ids[j] by {
            if i < j {
                assert(ids[i] < ids[j]);
            } else {
                assert(ids[j] < ids[i]);
            }
        }
    }
    if owners_fault(answers, address, ids) is None {
        assert forall|i: int| 0 <= i < coords.len() implies buffer_owner_fault(
            answers,
            address,
            (#[trigger] coords[i]).1.buffer_id,
        ) is None by {
            let k = ids.index_of(coords[i].1.buffer_id);
            assert(ids.contains(coords[i].1.buffer_id));
            assert(buffer_owner_fault(answers, address, ids[k]) is None);
        }
        assert forall|i: int| 0 <= i < coords.len() implies buffer_meta(
            answers,
            (#[trigger] coords[i]).1.buffer_id,
        )->Ok_0.len_bytes <= 4194304 by {
            lemma_owned(answers, tree, address, coords[i].1);
        }
        lemma_ranges(answers, coords);
        assert forall|i: int| 0 <= i < coords.len() implies (lies_in_own_buffer(
            tree,
            address,
            (#[trigger] coords[i]).1,
        ) <==> coords[i].1.end() <= buffer_meta(answers, coords[i].1.buffer_id)->Ok_0.len_bytes) by {
            lemma_owned(answers, tree, address, coords[i].1);
        }
    } else {
        let k = choose|k: int| 0 <= k < ids.len() && buffer_owner_fault(answers, address, #[trigger] ids[k]) is Some;
        assert(ids.contains(ids[k]));
        let i = choose|i: int| 0 <= i < coords.len() && (#[trigger] coords[i]).1.buffer_id == ids[k];
        lemma_owned(answers, tree, address, coords[i].1);
    }
}

// ---------- cleanups ----------

/// The integer that the tree has under the key.
pub open spec fn int_at(tree: Tree, key: KeyView) -> Option<i64> {
    if tree.contains_key(key) {
        match tree[key] {
            ValueView::Int(value) => Some(value),
            _ => None,
        }
    } else {
        None
    }
}

/// The row before one.
pub open spec fn prev_of(tree: Tree, id: i64) -> i64 {
    int_at(tree, piece_cell_key(id, "prev_id"@))->Some_0
}

/// The row after one.
pub open spec fn next_of(tree: Tree, id: i64) -> i64 {
    int_at(tree, piece_cell_key(id, "next_id"@))->Some_0
}

/// A row can be read if and only if its id is positive and the tree has an integer in
/// each of its cells, of which the range is not empty and ends where a position may
/// be, and the mark is zero or one. The row read is what the cells have.
pub proof fn law_row_read(answers: Answers, tree: Tree, id: i64)
    requires
        reads_tree(answers, tree),
    ensures
        ({
            let buffer_id = int_at(tree, piece_cell_key(id, "buffer_id"@));
            let start = int_at(tree, piece_cell_key(id, "start_byte"@));
            let len = int_at(tree, piece_cell_key(id, "len_bytes"@));
            let mark = int_at(tree, piece_cell_key(id, "tombstone"@));
            &&& piece_row(answers, id) is Ok <==> {
                &&& id > 0
                &&& int_at(tree, piece_cell_key(id, "list_number"@)) is Some
                &&& int_at(tree, piece_cell_key(id, "prev_id"@)) is Some
                &&& int_at(tree, piece_cell_key(id, "next_id"@)) is Some
                &&& buffer_id is Some
                &&& start is Some && start->Some_0 >= 0
                &&& len is Some && len->Some_0 > 0
                &&& start->Some_0 + len->Some_0 <= 0xffff_ffff
                &&& mark == Some(0i64) || mark == Some(1i64)
            }
            &&& piece_row(answers, id) matches Ok(row) ==> {
                &&& row.id == id
                &&& Some(row.list_number) == int_at(tree, piece_cell_key(id, "list_number"@))
                &&& Some(row.prev_id) == int_at(tree, piece_cell_key(id, "prev_id"@))
                &&& Some(row.next_id) == int_at(tree, piece_cell_key(id, "next_id"@))
                &&& Some(row.coord.buffer_id) == buffer_id
                &&& row.coord.start_byte == start->Some_0
                &&& row.coord.len_bytes == len->Some_0
                &&& row.coord.tombstone <==> mark == Some(1i64)
            }
        }),
{
    assert forall|column: PieceColumn|
        (#[trigger] int_column(answers, id, column)) is Ok <==> int_at(tree, piece_key(id, column)) is Some by {
        lemma_tree_answers(answers, tree, piece_key(id, column));
    }
    assert forall|column: PieceColumn|
        (#[trigger] int_column(answers, id, column)) matches Ok(value) ==> int_at(tree, piece_key(id, column))
            == Some(value) by {
        lemma_tree_answers(answers, tree, piece_key(id, column));
    }
    let a = int_column(answers, id, PieceColumn::ListNumber);
    let b = int_column(answers, id, PieceColumn::PrevId);
    let c = int_column(answers, id, PieceColumn::NextId);
    let d = int_column(answers, id, PieceColumn::BufferId);
    let e = int_column(answers, id, PieceColumn::StartByte);
    let f = int_column(answers, id, PieceColumn::LenBytes);
    let g = int_column(answers, id, PieceColumn::Tombstone);
    assert(piece_cell_key(id, "list_number"@) == piece_key(id, PieceColumn::ListNumber));
    assert(piece_cell_key(id, "prev_id"@) == piece_key(id, PieceColumn::PrevId));
    assert(piece_cell_key(id, "next_id"@) == piece_key(id, PieceColumn::NextId));
    assert(piece_cell_key(id, "buffer_id"@) == piece_key(id, PieceColumn::BufferId));
    assert(piece_cell_key(id, "start_byte"@) == piece_key(id, PieceColumn::StartByte));
    assert(piece_cell_key(id, "len_bytes"@) == piece_key(id, PieceColumn::LenBytes));
    assert(piece_cell_key(id, "tombstone"@) == piece_key(id, PieceColumn::Tombstone));
}

/// A row that may be removed: one of the list, deleted, with links, in a buffer, over
/// whole scalars.
pub open spec fn removable(tree: Tree, list_number: i64, id: i64) -> bool {
    &&& id > 0
    &&& int_at(tree, piece_cell_key(id, "list_number"@)) == Some(list_number)
    &&& int_at(tree, piece_cell_key(id, "prev_id"@)) is Some
    &&& int_at(tree, piece_cell_key(id, "next_id"@)) is Some
    &&& int_at(tree, piece_cell_key(id, "buffer_id"@)) matches Some(buffer_id)
    &&& buffer_id > 0
    &&& int_at(tree, piece_cell_key(id, "start_byte"@)) matches Some(start)
    &&& start >= 0
    &&& start % 4 == 0
    &&& int_at(tree, piece_cell_key(id, "len_bytes"@)) matches Some(len)
    &&& len > 0
    &&& len % 4 == 0
    &&& start + len <= 0xffff_ffff
    &&& int_at(tree, piece_cell_key(id, "tombstone"@)) == Some(1i64)
}

/// A run that may be taken out: its rows may be removed and follow each other, and
/// where there is no row on one side of it, it is at that end of the document.
pub open spec fn run_fits(tree: Tree, list_number: i64, head_id: i64, tail_id: i64, run: Seq<i64>) -> bool {
    &&& forall|j: int| 0 <= j < run.len() ==> removable(tree, list_number, #[trigger] run[j])
    &&& follow_each_other(tree, run)
    &&& prev_of(tree, run[0]) == 0 ==> head_id == run[0]
    &&& next_of(tree, run.last()) == 0 ==> tail_id == run.last()
}

/// Each row of a run points to the next one, and back.
pub open spec fn follow_each_other(tree: Tree, run: Seq<i64>) -> bool {
    forall|j: int, k: int|
        0 <= j < run.len() && k == j + 1 && k < run.len() ==> next_of(tree, #[trigger] run[j]) == run[k] && prev_of(
            tree,
            #[trigger] run[k],
        ) == run[j]
}

/// The row beside a run, before or after it, or zero.
pub open spec fn beside(tree: Tree, run: Seq<i64>, before: bool) -> i64 {
    if before {
        prev_of(tree, run[0])
    } else {
        next_of(tree, run.last())
    }
}

/// The rows beside the runs stay.
pub open spec fn neighbours_stay(tree: Tree, runs: Seq<Seq<i64>>, removed: Set<i64>) -> bool {
    forall|i: int, before: bool|
        0 <= i < runs.len() && #[trigger] beside(tree, runs[i], before) != 0 ==> !removed.contains(
            beside(tree, runs[i], before),
        )
}

/// No row is beside two runs, or on both sides of one.
pub open spec fn neighbours_differ(tree: Tree, runs: Seq<Seq<i64>>) -> bool {
    forall|i: int, a: bool, k: int, b: bool|
        0 <= i < runs.len() && 0 <= k < runs.len() && #[trigger] beside(tree, runs[i], a) == #[trigger] beside(
            tree,
            runs[k],
            b,
        ) && beside(tree, runs[i], a) != 0 ==> i == k && a == b
}

/// All runs may be taken out, one beside the other.
pub open spec fn runs_fit(
    tree: Tree,
    list_number: i64,
    head_id: i64,
    tail_id: i64,
    runs: Seq<Seq<i64>>,
    removed: Set<i64>,
) -> bool {
    &&& forall|i: int| 0 <= i < runs.len() ==> run_fits(tree, list_number, head_id, tail_id, #[trigger] runs[i])
    &&& neighbours_stay(tree, runs, removed)
    &&& neighbours_differ(tree, runs)
}

proof fn lemma_removable(answers: Answers, tree: Tree, list_number: i64, id: i64)
    requires
        reads_tree(answers, tree),
    ensures
        (piece_row(answers, id) matches Ok(row) && removed_row_fault(row, list_number) is None) <==> removable(
            tree,
            list_number,
            id,
        ),
        piece_row(answers, id) matches Ok(row) ==> row.id == id && row.prev_id == prev_of(tree, id) && row.next_id
            == next_of(tree, id),
{
    law_row_read(answers, tree, id);
}

/// The rows are those of the run.
pub open spec fn are_rows_of(answers: Answers, tree: Tree, run: Seq<i64>, rows: Seq<PieceRow>) -> bool {
    &&& rows.len() == run.len()
    &&& forall|j: int|
        0 <= j < rows.len() ==> (#[trigger] rows[j]).id == run[j] && rows[j].prev_id == prev_of(tree, run[j])
            && rows[j].next_id == next_of(tree, run[j])
}

pub proof fn lemma_run_removable(answers: Answers, tree: Tree, list_number: i64, run: Seq<i64>)
    requires
        reads_tree(answers, tree),
    ensures
        run_rows(answers, list_number, run) is Ok <==> forall|j: int|
            0 <= j < run.len() ==> removable(tree, list_number, #[trigger] run[j]),
        run_rows(answers, list_number, run) matches Ok(rows) ==> are_rows_of(answers, tree, run, rows),
    decreases run.len(),
{
    if run.len() > 0 {
        let rest = run.drop_last();
        lemma_run_removable(answers, tree, list_number, rest);
        lemma_removable(answers, tree, list_number, run.last());
        assert(run[run.len() - 1] == run.last());
        if run_rows(answers, list_number, rest) is Err {
            let j = choose|j: int| 0 <= j < rest.len() && !removable(tree, list_number, #[trigger] rest[j]);
            assert(run[j] == rest[j]);
        } else {
            assert forall|j: int| 0 <= j < rest.len() implies removable(tree, list_number, #[trigger] run[j]) by {
                assert(rest[j] == run[j]);
            }
        }
        if let Ok(rows) = run_rows(answers, list_number, run) {
            let before = run_rows(answers, list_number, rest)->Ok_0;
            assert forall|j: int| 0 <= j < rows.len() implies (#[trigger] rows[j]).id == run[j] && rows[j].prev_id
                == prev_of(tree, run[j]) && rows[j].next_id == next_of(tree, run[j]) by {
                if j < before.len() {
                    assert(rows[j] == before[j]);
                    assert(rest[j] == run[j]);
                }
            }
        }
    }
}

pub proof fn lemma_run_follows(answers: Answers, tree: Tree, run: Seq<i64>, rows: Seq<PieceRow>)
    requires
        are_rows_of(answers, tree, run, rows),
    ensures
        run_links_fault(rows) is None <==> follow_each_other(tree, run),
    decreases run.len(),
{
    if run.len() >= 2 {
        let rest = run.drop_last();
        let fewer = rows.drop_last();
        assert forall|j: int| 0 <= j < fewer.len() implies (#[trigger] fewer[j]).id == rest[j] && fewer[j].prev_id
            == prev_of(tree, rest[j]) && fewer[j].next_id == next_of(tree, rest[j]) by {
            assert(fewer[j] == rows[j]);
            assert(rest[j] == run[j]);
        }
        lemma_run_follows(answers, tree, rest, fewer);
        let n = run.len() - 1;
        assert(rows[n].id == run[n] && rows[n - 1].id == run[n - 1]);
        assert(rows.last() == rows[n]);
        if follow_each_other(tree, run) {
            assert forall|j: int, k: int| 0 <= j < rest.len() && k == j + 1 && k < rest.len() implies next_of(
                tree,
                #[trigger] rest[j],
            ) == rest[k] && prev_of(tree, #[trigger] rest[k]) == rest[j] by {
                assert(rest[j] == run[j] && rest[k] == run[k]);
            }
        }
        if run_links_fault(rows) is None {
            assert forall|j: int, k: int| 0 <= j < run.len() && k == j + 1 && k < run.len() implies next_of(
                tree,
                #[trigger] run[j],
            ) == run[k] && prev_of(tree, #[trigger] run[k]) == run[j] by {
                if k < n {
                    assert(rest[j] == run[j] && rest[k] == run[k]);
                }
            }
        }
    }
}

// ---------- no key twice ----------

/// A key that runs may write to.
pub open spec fn is_run_key(tree: Tree, list_number: i64, runs: Seq<Seq<i64>>, key: KeyView) -> bool {
    match key {
        KeyView::Column { table, row_id, column } => {
            &&& table == "_piecetext_pieces"@
            &&& is_removed(runs, row_id) || (column == "next_id"@ && is_beside(tree, runs, row_id, true)) || (column
                == "prev_id"@ && is_beside(tree, runs, row_id, false))
        },
        KeyView::Index { table, row_id, .. } => table == "_piecetext_pieces"@ && is_removed(runs, row_id),
        KeyView::PieceHead { list_number: n } => n == list_number && reaches_end(tree, runs, true),
        KeyView::PieceTail { list_number: n } => n == list_number && reaches_end(tree, runs, false),
        _ => false,
    }
}

/// The row is beside one of the runs, before or after it.
pub open spec fn is_beside(tree: Tree, runs: Seq<Seq<i64>>, id: i64, before: bool) -> bool {
    id != 0 && exists|i: int| 0 <= i < runs.len() && beside(tree, #[trigger] runs[i], before) == id
}

/// One of the runs has no row beside it, before or after it.
pub open spec fn reaches_end(tree: Tree, runs: Seq<Seq<i64>>, before: bool) -> bool {
    exists|i: int| 0 <= i < runs.len() && beside(tree, #[trigger] runs[i], before) == 0
}

proof fn lemma_more_runs(tree: Tree, list_number: i64, runs: Seq<Seq<i64>>, key: KeyView)
    requires
        runs.len() > 0,
        is_run_key(tree, list_number, runs.drop_last(), key) || is_run_key(
            tree,
            list_number,
            seq![runs.last()],
            key,
        ),
    ensures
        is_run_key(tree, list_number, runs, key),
{
    let rest = runs.drop_last();
    let one = seq![runs.last()];
    assert(runs[runs.len() - 1] == runs.last());
    assert forall|i: int| 0 <= i < rest.len() implies #[trigger] rest[i] == runs[i] by {}
    assert forall|id: i64| #[trigger] is_removed(rest, id) || is_removed(one, id) implies is_removed(runs, id) by {
        if is_removed(rest, id) {
            let (i, j) = choose|i: int, j: int|
                0 <= i < rest.len() && 0 <= j < rest[i].len() && #[trigger] rest[i][j] == id;
            assert(runs[i][j] == id);
        } else {
            let (i, j) = choose|i: int, j: int|
                0 <= i < one.len() && 0 <= j < one[i].len() && #[trigger] one[i][j] == id;
            assert(runs[runs.len() - 1][j] == id);
        }
    }
    assert forall|id: i64, before: bool| #[trigger] is_beside(tree, rest, id, before) || is_beside(
        tree,
        one,
        id,
        before,
    ) implies is_beside(tree, runs, id, before) by {
        if is_beside(tree, rest, id, before) {
            let i = choose|i: int| 0 <= i < rest.len() && beside(tree, #[trigger] rest[i], before) == id;
            assert(beside(tree, runs[i], before) == id);
        } else {
            assert(beside(tree, one[0], before) == id);
            assert(beside(tree, runs[runs.len() - 1], before) == id);
        }
    }
    assert forall|before: bool| #[trigger] reaches_end(tree, rest, before) || reaches_end(
        tree,
        one,
        before,
    ) implies reaches_end(tree, runs, before) by {
        if reaches_end(tree, rest, before) {
            let i = choose|i: int| 0 <= i < rest.len() && beside(tree, #[trigger] rest[i], before) == 0;
            assert(beside(tree, runs[i], before) == 0);
        } else {
            assert(beside(tree, one[0], before) == 0);
            assert(beside(tree, runs[runs.len() - 1], before) == 0);
        }
    }
}

/// No key is of both earlier runs and the one after them.
proof fn lemma_keys_apart(
    tree: Tree,
    list_number: i64,
    head_id: i64,
    tail_id: i64,
    runs: Seq<Seq<i64>>,
    removed: Set<i64>,
    key: KeyView,
)
    requires
        runs.len() > 0,
        runs_fit(tree, list_number, head_id, tail_id, runs, removed),
        named_once(runs),
        forall|i: int| 0 <= i < runs.len() ==> (#[trigger] runs[i]).len() > 0,
        forall|id: i64| #[trigger] is_removed(runs, id) ==> removed.contains(id),
        is_run_key(tree, list_number, runs.drop_last(), key),
    ensures
        !is_run_key(tree, list_number, seq![runs.last()], key),
{
    let rest = runs.drop_last();
    let last = runs.last();
    let n = runs.len() - 1;
    let one = seq![last];
    lemma_link_names();
    assert(runs[n] == last);
    assert forall|i: int| 0 <= i < rest.len() implies #[trigger] rest[i] == runs[i] by {}
    assert forall|id: i64| #[trigger] is_removed(rest, id) implies removed.contains(id) && !is_removed(one, id) by {
        let (i, j) = choose|i: int, j: int|
            0 <= i < rest.len() && 0 <= j < rest[i].len() && #[trigger] rest[i][j] == id;
        assert(runs[i][j] == id);
        assert(is_removed(runs, id));
        if is_removed(one, id) {
            let (k, l) = choose|k: int, l: int|
                0 <= k < one.len() && 0 <= l < one[k].len() && #[trigger] one[k][l] == id;
            assert(runs[i][j] == runs[n][l]);
        }
    }
    assert forall|id: i64| #[trigger] is_removed(one, id) implies removed.contains(id) by {
        let (k, l) = choose|k: int, l: int|
            0 <= k < one.len() && 0 <= l < one[k].len() && #[trigger] one[k][l] == id;
        assert(runs[n][l] == id);
        assert(is_removed(runs, id));
    }
    assert forall|id: i64, a: bool| #[trigger] is_beside(tree, rest, id, a) implies !removed.contains(id) && !is_beside(
        tree,
        one,
        id,
        a,
    ) by {
        let i = choose|i: int| 0 <= i < rest.len() && beside(tree, #[trigger] rest[i], a) == id;
        assert(beside(tree, runs[i], a) == id);
        if is_beside(tree, one, id, a) {
            assert(beside(tree, one[0], a) == id);
            assert(beside(tree, runs[n], a) == id);
        }
    }
    assert forall|id: i64, a: bool| #[trigger] is_beside(tree, one, id, a) implies !removed.contains(id) by {
        assert(beside(tree, one[0], a) == id);
        assert(beside(tree, runs[n], a) == id);
    }
    assert forall|a: bool| #[trigger] reaches_end(tree, rest, a) implies !reaches_end(tree, one, a) by {
        let i = choose|i: int| 0 <= i < rest.len() && beside(tree, #[trigger] rest[i], a) == 0;
        let run = runs[i];
        assert(beside(tree, run, a) == 0);
        assert(run_fits(tree, list_number, head_id, tail_id, run));
        assert(run.len() > 0 && last.len() > 0);
        if reaches_end(tree, one, a) {
            assert(beside(tree, one[0], a) == 0);
            assert(run_fits(tree, list_number, head_id, tail_id, runs[n]));
            if a {
                assert(runs[i][0] == runs[n][0]);
            } else {
                assert(runs[i][runs[i].len() - 1] == runs[n][runs[n].len() - 1]);
            }
        }
    }
}

proof fn lemma_link_names()
    ensures
        "prev_id"@ != "next_id"@,
{
    reveal_strlit("prev_id");
    reveal_strlit("next_id");
    assert("prev_id"@[0] != "next_id"@[0]);
}

pub proof fn lemma_no_repeats(a: Seq<BatchOpView>, b: Seq<BatchOpView>)
    requires
        !repeats_key(a),
        !repeats_key(b),
        forall|i: int, j: int|
            0 <= i < a.len() && 0 <= j < b.len() ==> (#[trigger] a[i]).key() != (#[trigger] b[j]).key(),
    ensures
        !repeats_key(a + b),
{
    let all = a + b;
    if repeats_key(all) {
        let (i, j) = choose|i: int, j: int|
            0 <= i < j < all.len() && #[trigger] all[i].key() == #[trigger] all[j].key();
        if j < a.len() {
            assert(a[i].key() == a[j].key());
        } else if i < a.len() {
            assert(a[i].key() != b[j - a.len()].key());
        } else {
            assert(b[i - a.len()].key() == b[j - a.len()].key());
        }
    }
}

/// The deletes of a row are to different keys, all of the row.
proof fn lemma_row_once(row: PieceRow)
    ensures
        !repeats_key(row_deletes(row)),
        forall|k: int|
            0 <= k < row_deletes(row).len() ==> match (#[trigger] row_deletes(row)[k]).key() {
                KeyView::Column { table, row_id, .. } => table == "_piecetext_pieces"@ && row_id == row.id,
                KeyView::Index { table, row_id, .. } => table == "_piecetext_pieces"@ && row_id == row.id,
                _ => false,
            },
{
    let columns = piece_columns();
    let deletes = row_deletes(row);
    assert(deletes.len() == 9);
    assert forall|i: int| 0 <= i < columns.len() implies (#[trigger] deletes[i]) == (
    BatchOpView::Delete { key: piece_key(row.id, columns[i]) }) by {}
    lemma_piece_keys(row.id, PieceColumn::BufferId, row.id, PieceColumn::ListNumber);
    if repeats_key(deletes) {
        let (i, j) = choose|i: int, j: int|
            0 <= i < j < deletes.len() && #[trigger] deletes[i].key() == #[trigger] deletes[j].key();
        if j < 7 {
            lemma_piece_keys(row.id, columns[i], row.id, columns[j]);
        }
    }
}

proof fn lemma_rows_once(rows: Seq<PieceRow>)
    requires
        forall|i: int, j: int| 0 <= i < j < rows.len() ==> (#[trigger] rows[i]).id != (#[trigger] rows[j]).id,
    ensures
        !repeats_key(rows_deletes(rows)),
        forall|k: int|
            0 <= k < rows_deletes(rows).len() ==> exists|i: int|
                0 <= i < rows.len() && is_row_key((#[trigger] rows_deletes(rows)[k]).key(), (#[trigger] rows[i]).id),
    decreases rows.len(),
{
    if rows.len() > 0 {
        let rest = rows.drop_last();
        let last = rows.last();
        let n = rows.len() - 1;
        assert(rows[n] == last);
        assert forall|i: int, j: int| 0 <= i < j < rest.len() implies (#[trigger] rest[i]).id != (
        #[trigger] rest[j]).id by {
            assert(rest[i] == rows[i] && rest[j] == rows[j]);
        }
        lemma_rows_once(rest);
        lemma_row_once(last);
        let a = rows_deletes(rest);
        let b = row_deletes(last);
        let all = rows_deletes(rows);
        assert(all == a + b);
        assert forall|k: int| 0 <= k < b.len() implies is_row_key((#[trigger] b[k]).key(), last.id) by {}
        assert forall|i: int, j: int| 0 <= i < a.len() && 0 <= j < b.len() implies (#[trigger] a[i]).key() != (
        #[trigger] b[j]).key() by {
            let m = choose|m: int| 0 <= m < rest.len() && is_row_key(a[i].key(), (#[trigger] rest[m]).id);
            assert(rest[m] == rows[m]);
            assert(rows[m].id != rows[n].id);
            assert(is_row_key(b[j].key(), last.id));
        }
        lemma_no_repeats(a, b);
        assert forall|k: int| 0 <= k < all.len() implies exists|i: int|
            0 <= i < rows.len() && is_row_key((#[trigger] all[k]).key(), (#[trigger] rows[i]).id) by {
            if k < a.len() {
                assert(all[k] == a[k]);
                let m = choose|m: int| 0 <= m < rest.len() && is_row_key(a[k].key(), (#[trigger] rest[m]).id);
                assert(rows[m] == rest[m]);
            } else {
                assert(all[k] == b[k - a.len()]);
                assert(is_row_key(all[k].key(), rows[n].id));
            }
        }
    }
}

spec fn is_row_key(key: KeyView, id: i64) -> bool {
    match key {
        KeyView::Column { table, row_id, .. } => table == "_piecetext_pieces"@ && row_id == id,
        KeyView::Index { table, row_id, .. } => table == "_piecetext_pieces"@ && row_id == id,
        _ => false,
    }
}

/// The writes of a run that may be taken out are to different keys, all of the run.
proof fn lemma_run_once(
    answers: Answers,
    tree: Tree,
    list_number: i64,
    run: Seq<i64>,
    rows: Seq<PieceRow>,
    removed: Set<i64>,
)
    requires
        are_rows_of(answers, tree, run, rows),
        run.len() > 0,
        run.no_duplicates(),
        forall|j: int| 0 <= j < run.len() ==> removed.contains(#[trigger] run[j]),
        beside(tree, run, true) != 0 ==> !removed.contains(beside(tree, run, true)),
        beside(tree, run, false) != 0 ==> !removed.contains(beside(tree, run, false)),
    ensures
        !repeats_key(run_writes(list_number, rows)),
        forall|k: int|
            0 <= k < run_writes(list_number, rows).len() ==> is_run_key(
                tree,
                list_number,
                seq![run],
                (#[trigger] run_writes(list_number, rows)[k]).key(),
            ),
{
    let prev = rows[0].prev_id;
    let next = rows.last().next_id;
    assert(rows.last() == rows[rows.len() - 1]);
    assert(run.last() == run[run.len() - 1]);
    assert(prev == beside(tree, run, true) && next == beside(tree, run, false));
    let links = seq![forward_link(list_number, prev, next), backward_link(list_number, prev, next)];
    let deletes = rows_deletes(rows);
    let all = run_writes(list_number, rows);
    let one = seq![run];
    assert(all == links + deletes);
    lemma_link_names();
    assert forall|i: int, j: int| 0 <= i < j < rows.len() implies (#[trigger] rows[i]).id != (
    #[trigger] rows[j]).id by {
        assert(run[i] != run[j]);
    }
    lemma_rows_once(rows);
    assert(!repeats_key(links)) by {
        if repeats_key(links) {
            let (i, j) = choose|i: int, j: int|
                0 <= i < j < links.len() && #[trigger] links[i].key() == #[trigger] links[j].key();
            assert(i == 0 && j == 1);
        }
    }
    assert(one[0] == run);
    assert(beside(tree, one[0], true) == prev && beside(tree, one[0], false) == next);
    assert(is_run_key(tree, list_number, one, links[0].key()));
    assert(is_run_key(tree, list_number, one, links[1].key()));
    assert forall|k: int| 0 <= k < deletes.len() implies exists|j: int|
        0 <= j < run.len() && is_row_key((#[trigger] deletes[k]).key(), #[trigger] run[j]) by {
        let i = choose|i: int| 0 <= i < rows.len() && is_row_key(deletes[k].key(), (#[trigger] rows[i]).id);
        assert(rows[i].id == run[i]);
    }
    assert forall|i: int, j: int| 0 <= i < links.len() && 0 <= j < deletes.len() implies (
    #[trigger] links[i]).key() != (#[trigger] deletes[j]).key() by {
        let m = choose|m: int| 0 <= m < run.len() && is_row_key(deletes[j].key(), #[trigger] run[m]);
        assert(removed.contains(run[m]));
        assert(i == 0 || i == 1);
    }
    lemma_no_repeats(links, deletes);
    assert forall|k: int| 0 <= k < all.len() implies is_run_key(
        tree,
        list_number,
        one,
        (#[trigger] all[k]).key(),
    ) by {
        if k < 2 {
            assert(all[k] == links[k]);
        } else {
            assert(all[k] == deletes[k - 2]);
            let m = choose|m: int| 0 <= m < run.len() && is_row_key(deletes[k - 2].key(), #[trigger] run[m]);
            assert(one[0][m] == run[m]);
            assert(is_removed(one, run[m]));
        }
    }
}

/// What runs have claimed and written.
pub open spec fn runs_state(tree: Tree, list_number: i64, runs: Seq<Seq<i64>>, state: RunsState) -> bool {
    &&& forall|id: i64| #[trigger]
        state.claimed.contains(id) <==> is_beside(tree, runs, id, true) || is_beside(tree, runs, id, false)
    &&& !repeats_key(state.writes)
    &&& forall|k: int|
        0 <= k < state.writes.len() ==> is_run_key(tree, list_number, runs, (#[trigger] state.writes[k]).key())
}

proof fn lemma_beside_last(tree: Tree, runs: Seq<Seq<i64>>, id: i64, before: bool)
    requires
        runs.len() > 0,
    ensures
        is_beside(tree, runs, id, before) <==> is_beside(tree, runs.drop_last(), id, before) || (id != 0 && beside(
            tree,
            runs.last(),
            before,
        ) == id),
{
    let rest = runs.drop_last();
    if is_beside(tree, rest, id, before) {
        let i = choose|i: int| 0 <= i < rest.len() && beside(tree, #[trigger] rest[i], before) == id;
        assert(beside(tree, runs[i], before) == id);
    }
    if id != 0 && beside(tree, runs.last(), before) == id {
        assert(beside(tree, runs[runs.len() - 1], before) == id);
    }
    if is_beside(tree, runs, id, before) {
        let i = choose|i: int| 0 <= i < runs.len() && beside(tree, #[trigger] runs[i], before) == id;
        if i < rest.len() {
            assert(beside(tree, rest[i], before) == id);
        }
    }
}

/// Whether a last run fits, besides those before it.
pub open spec fn last_fits(
    tree: Tree,
    list_number: i64,
    head_id: i64,
    tail_id: i64,
    runs: Seq<Seq<i64>>,
    removed: Set<i64>,
) -> bool {
    let rest = runs.drop_last();
    let (prev, next) = (beside(tree, runs.last(), true), beside(tree, runs.last(), false));
    &&& run_fits(tree, list_number, head_id, tail_id, runs.last())
    &&& prev != 0 ==> !removed.contains(prev) && !is_beside(tree, rest, prev, true) && !is_beside(
        tree,
        rest,
        prev,
        false,
    ) && prev != next
    &&& next != 0 ==> !removed.contains(next) && !is_beside(tree, rest, next, true) && !is_beside(
        tree,
        rest,
        next,
        false,
    )
}

proof fn lemma_last_fits(
    tree: Tree,
    list_number: i64,
    head_id: i64,
    tail_id: i64,
    runs: Seq<Seq<i64>>,
    removed: Set<i64>,
)
    requires
        runs.len() > 0,
    ensures
        runs_fit(tree, list_number, head_id, tail_id, runs, removed) <==> runs_fit(
            tree,
            list_number,
            head_id,
            tail_id,
            runs.drop_last(),
            removed,
        ) && last_fits(tree, list_number, head_id, tail_id, runs, removed),
{
    let rest = runs.drop_last();
    let last = runs.last();
    let n = runs.len() - 1;
    let (prev, next) = (beside(tree, last, true), beside(tree, last, false));
    assert(runs[n] == last);
    assert forall|i: int| 0 <= i < rest.len() implies #[trigger] rest[i] == runs[i] by {}
    if runs_fit(tree, list_number, head_id, tail_id, runs, removed) {
        assert forall|i: int| 0 <= i < rest.len() implies run_fits(
            tree,
            list_number,
            head_id,
            tail_id,
            #[trigger] rest[i],
        ) by {
            assert(run_fits(tree, list_number, head_id, tail_id, runs[i]));
        }
        assert forall|i: int, before: bool|
            0 <= i < rest.len() && #[trigger] beside(tree, rest[i], before) != 0 implies !removed.contains(
            beside(tree, rest[i], before),
        ) by {
            assert(beside(tree, runs[i], before) != 0);
        }
        assert forall|i: int, a: bool, k: int, b: bool|
            0 <= i < rest.len() && 0 <= k < rest.len() && #[trigger] beside(tree, rest[i], a) == #[trigger] beside(
                tree,
                rest[k],
                b,
            ) && beside(tree, rest[i], a) != 0 implies i == k && a == b by {
            assert(beside(tree, runs[i], a) == beside(tree, runs[k], b));
        }
        assert(run_fits(tree, list_number, head_id, tail_id, runs[n]));
        assert(prev == beside(tree, runs[n], true) && next == beside(tree, runs[n], false));
        assert forall|id: i64, a: bool, b: bool| id != 0 && beside(tree, last, a) == id && #[trigger] is_beside(
            tree,
            rest,
            id,
            b,
        ) implies #[trigger] beside(tree, last, a) != id by {
            let i = choose|i: int| 0 <= i < rest.len() && beside(tree, #[trigger] rest[i], b) == id;
            assert(beside(tree, runs[i], b) == beside(tree, runs[n], a));
        }
    }
    if runs_fit(tree, list_number, head_id, tail_id, rest, removed) && last_fits(
        tree,
        list_number,
        head_id,
        tail_id,
        runs,
        removed,
    ) {
        assert forall|i: int| 0 <= i < runs.len() implies run_fits(
            tree,
            list_number,
            head_id,
            tail_id,
            #[trigger] runs[i],
        ) by {
            if i < n {
                assert(run_fits(tree, list_number, head_id, tail_id, rest[i]));
            }
        }
        assert forall|i: int, before: bool|
            0 <= i < runs.len() && #[trigger] beside(tree, runs[i], before) != 0 implies !removed.contains(
            beside(tree, runs[i], before),
        ) by {
            if i < n {
                assert(beside(tree, rest[i], before) != 0);
            }
        }
        assert forall|i: int, a: bool, k: int, b: bool|
            0 <= i < runs.len() && 0 <= k < runs.len() && #[trigger] beside(tree, runs[i], a) == #[trigger] beside(
                tree,
                runs[k],
                b,
            ) && beside(tree, runs[i], a) != 0 implies i == k && a == b by {
            let id = beside(tree, runs[i], a);
            if i < n && k < n {
                assert(beside(tree, rest[i], a) == beside(tree, rest[k], b));
            } else if i < n {
                assert(beside(tree, rest[i], a) == id);
                assert(is_beside(tree, rest, id, a));
            } else if k < n {
                assert(beside(tree, rest[k], b) == id);
                assert(is_beside(tree, rest, id, b));
            }
        }
    }
}

pub proof fn lemma_run_step(
    answers: Answers,
    tree: Tree,
    list_number: i64,
    head_id: i64,
    tail_id: i64,
    removed: Set<i64>,
    runs: Seq<Seq<i64>>,
    before: RunsState,
)
    requires
        reads_tree(answers, tree),
        runs.len() > 0,
        named_once(runs),
        forall|i: int| 0 <= i < runs.len() ==> (#[trigger] runs[i]).len() > 0,
        forall|id: i64| #[trigger] is_removed(runs, id) ==> removed.contains(id),
        runs_fit(tree, list_number, head_id, tail_id, runs.drop_last(), removed),
        runs_state(tree, list_number, runs.drop_last(), before),
    ensures
        ({
            let r = run_step(answers, list_number, head_id, tail_id, removed, before, runs.last());
            &&& r is Ok <==> last_fits(tree, list_number, head_id, tail_id, runs, removed)
            &&& r matches Ok(state) ==> runs_state(tree, list_number, runs, state)
        }),
{
    let rest = runs.drop_last();
    let run = runs.last();
    let n = runs.len() - 1;
    assert(runs[n] == run);
    lemma_run_removable(answers, tree, list_number, run);
    if let Ok(rows) = run_rows(answers, list_number, run) {
        lemma_run_follows(answers, tree, run, rows);
        let prev = rows[0].prev_id;
        let next = rows.last().next_id;
        assert(rows.last() == rows[rows.len() - 1]);
        assert(run.last() == run[run.len() - 1]);
        assert(rows[0].id == run[0] && rows[rows.len() - 1].id == run.last());
        assert(prev == beside(tree, run, true) && next == beside(tree, run, false));
        lemma_last_fits(tree, list_number, head_id, tail_id, runs, removed);
        if last_fits(tree, list_number, head_id, tail_id, runs, removed) {
            assert(run.no_duplicates()) by {
                assert forall|a: int, b: int| 0 <= a < run.len() && 0 <= b < run.len() && a != b implies run[a]
                    != run[b] by {
                    assert(runs[n][a] != runs[n][b]);
                }
            }
            assert forall|j: int| 0 <= j < run.len() implies removed.contains(#[trigger] run[j]) by {
                assert(runs[n][j] == run[j]);
                assert(is_removed(runs, run[j]));
            }
            lemma_run_once(answers, tree, list_number, run, rows, removed);
            let more = run_writes(list_number, rows);
            assert forall|i: int, j: int| 0 <= i < before.writes.len() && 0 <= j < more.len() implies (
            #[trigger] before.writes[i]).key() != (#[trigger] more[j]).key() by {
                lemma_keys_apart(tree, list_number, head_id, tail_id, runs, removed, before.writes[i].key());
            }
            lemma_no_repeats(before.writes, more);
            let writes = before.writes + more;
            lemma_first_repeated(writes);
            assert forall|k: int| 0 <= k < writes.len() implies is_run_key(
                tree,
                list_number,
                runs,
                (#[trigger] writes[k]).key(),
            ) by {
                if k < before.writes.len() {
                    assert(writes[k] == before.writes[k]);
                } else {
                    assert(writes[k] == more[k - before.writes.len()]);
                }
                lemma_more_runs(tree, list_number, runs, writes[k].key());
            }
        }
        if let Ok(state) = run_step(answers, list_number, head_id, tail_id, removed, before, run) {
            assert forall|id: i64| #[trigger] state.claimed.contains(id) <==> is_beside(tree, runs, id, true)
                || is_beside(tree, runs, id, false) by {
                lemma_beside_last(tree, runs, id, true);
                lemma_beside_last(tree, runs, id, false);
            }
        }
    }
}

pub proof fn lemma_runs_accepted(
    answers: Answers,
    tree: Tree,
    list_number: i64,
    head_id: i64,
    tail_id: i64,
    removed: Set<i64>,
    runs: Seq<Seq<i64>>,
)
    requires
        reads_tree(answers, tree),
        named_once(runs),
        forall|i: int| 0 <= i < runs.len() ==> (#[trigger] runs[i]).len() > 0,
        forall|id: i64| #[trigger] is_removed(runs, id) ==> removed.contains(id),
    ensures
        ({
            let r = runs_step(answers, list_number, head_id, tail_id, removed, runs);
            &&& r is Ok <==> runs_fit(tree, list_number, head_id, tail_id, runs, removed)
            &&& r matches Ok(state) ==> runs_state(tree, list_number, runs, state)
        }),
    decreases runs.len(),
{
    if runs.len() > 0 {
        let rest = runs.drop_last();
        assert forall|i: int| 0 <= i < rest.len() implies (#[trigger] rest[i]).len() > 0 by {
            assert(rest[i] == runs[i]);
        }
        assert forall|id: i64| #[trigger] is_removed(rest, id) implies removed.contains(id) by {
            let (i, j) = choose|i: int, j: int|
                0 <= i < rest.len() && 0 <= j < rest[i].len() && #[trigger] rest[i][j] == id;
            assert(runs[i][j] == id);
            assert(is_removed(runs, id));
        }
        assert(named_once(rest)) by {
            assert forall|i: int, j: int, k: int, l: int|
                #![trigger rest[i][j], rest[k][l]]
                0 <= i < rest.len() && 0 <= j < rest[i].len() && 0 <= k < rest.len() && 0 <= l < rest[k].len()
                    && rest[i][j] == rest[k][l] implies i == k && j == l by {
                assert(runs[i][j] == runs[k][l]);
            }
        }
        lemma_runs_accepted(answers, tree, list_number, head_id, tail_id, removed, rest);
        lemma_last_fits(tree, list_number, head_id, tail_id, runs, removed);
        if let Ok(before) = runs_step(answers, list_number, head_id, tail_id, removed, rest) {
            lemma_run_step(answers, tree, list_number, head_id, tail_id, removed, runs, before);
        }
    }
}

/// The rows of the runs, as a set.
pub open spec fn rows_of(runs: Seq<Seq<i64>>) -> Set<i64> {
    Set::new(|id: i64| is_removed(runs, id))
}

/// A cleanup is accepted if and only if its envelope is for the change under way and
/// for a column that holds documents, the tree keeps the document of the envelope's
/// list in the cell, and all runs may be taken out of it: their rows are deleted rows
/// of the list that follow each other, at the end of the document where they have no
/// neighbour, and each neighbour stays and is that of one run, on one side.
pub proof fn law_cleanup_accepted(
    answers: Answers,
    checks: CleanupChecks,
    current_change_id: u64,
    entry: ChangelogEntry,
    tree: Tree,
)
    requires
        reads_tree(answers, tree),
        cleanup_pieces_in_message(entry.message@) is Ok,
    ensures
        ({
            let envelope = cleanup_pieces_in_message(entry.message@)->Ok_0;
            let list_number = envelope.list_number;
            cleanup_operation(answers, checks, current_change_id, entry) is Ok <==> {
                &&& envelope.op_id == current_change_id
                &&& checks.piece_text_columns matches Ok(columns)
                &&& is_named(columns@, envelope.address.column)
                &&& exists|head_id: i64, tail_id: i64|
                    #[trigger] keeps_document(tree, envelope.address, list_number, head_id, tail_id) && runs_fit(
                        tree,
                        list_number,
                        head_id,
                        tail_id,
                        envelope.runs,
                        rows_of(envelope.runs),
                    )
            }
        }),
{
    let envelope = cleanup_pieces_in_message(entry.message@)->Ok_0;
    let list_number = envelope.list_number;
    let address = envelope.address;
    let runs = envelope.runs;
    law_cleanup_pieces_message(entry.message@);
    lemma_tree_answers(answers, tree, cell_at(address));
    lemma_tree_answers(answers, tree, KeyView::PieceParent { list_number });
    lemma_tree_answers(answers, tree, KeyView::PieceHead { list_number });
    lemma_tree_answers(answers, tree, KeyView::PieceTail { list_number });
    if let Ok(columns) = checks.piece_text_columns {
        assert(is_named(columns@, address.column) == crate::ops::names_include(columns@, address.column));
    }
    let removed = removed_rows(runs).to_set();
    assert(removed =~= rows_of(runs)) by {
        assert forall|id: i64| #[trigger] removed.contains(id) <==> rows_of(runs).contains(id) by {
            lemma_removed_in(runs, id);
        }
    }
    assert forall|id: i64| #[trigger] is_removed(runs, id) implies removed.contains(id) by {
        assert(rows_of(runs).contains(id));
    }
    if let Ok((head_id, tail_id)) = cleanup_endpoints(answers, checks, current_change_id, envelope) {
        lemma_runs_accepted(answers, tree, list_number, head_id, tail_id, removed, runs);
        assert(keeps_document(tree, address, list_number, head_id, tail_id));
    }
}

} // verus!
