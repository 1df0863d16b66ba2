//! What a cleanup does to a document: the deleted rows are gone, the others are
//! linked to each other, and a reader sees the same text.

use vstd::prelude::*;

use crate::changelog::{ChangelogEntry, ChangelogError};
use crate::ops::piece_text_cleanup_pieces_op::{
    backward_link, claim_survivor, cleanup_endpoints, cleanup_operation, cleanup_reads, forward_link,
    row_deletes, rows_deletes, rows_reads, run_links_fault, run_rows, run_step, run_writes,
    runs_step, writes_between, CleanupChecks, RunsState,
};
use crate::ops::{document_reads, lemma_first_repeated, repeats_key};
use crate::ops::piece_text_tree::{
    after_write, cell_of, has_row, holds, lacks_row, lemma_deleted, lemma_piece_keys, lemma_row_found,
    lemma_row_read, lemma_unwritten, lemma_written_then, reads_tree, same_at, stores,
    writes_to, written, Tree,
};
use crate::piece_text_chain::{distinct, id_at, row_in, text, Piece};
use crate::piece_text_cleanup::{
    cleanup_pieces_in_message, law_cleanup_runs, removed_rows, runs_fault,
};
use crate::piece_text_edit_writes::has_id;
use crate::piece_text_planner::PieceRow;
use crate::piece_text_resolver::{
    piece_columns, piece_key, piece_row, whole_row_reads, PieceColumn,
};
use crate::storage::{
    buffer_table, i64_be, piece_table, Answers, BatchOpView, KeyView, ValueView,
};

verus! {

/// The pieces whose ids are not among those given.
pub open spec fn without(pieces: Seq<Piece>, ids: Set<i64>) -> Seq<Piece>
    decreases pieces.len(),
{
    if pieces.len() == 0 {
        Seq::empty()
    } else {
        let rest = without(pieces.drop_last(), ids);
        if ids.contains(pieces.last().id) {
            rest
        } else {
            rest.push(pieces.last())
        }
    }
}

proof fn lemma_without_concat(a: Seq<Piece>, b: Seq<Piece>, ids: Set<i64>)
    ensures
        without(a + b, ids) == without(a, ids) + without(b, ids),
    decreases b.len(),
{
    if b.len() == 0 {
        assert(a + b =~= a);
        assert(without(a, ids) + without(b, ids) =~= without(a, ids));
    } else {
        assert((a + b).drop_last() =~= a + b.drop_last());
        lemma_without_concat(a, b.drop_last(), ids);
        assert(without(a + b, ids) =~= without(a, ids) + without(b, ids));
    }
}

proof fn lemma_without_all(pieces: Seq<Piece>, ids: Set<i64>)
    requires
        forall|i: int| 0 <= i < pieces.len() ==> ids.contains((#[trigger] pieces[i]).id),
    ensures
        without(pieces, ids) == Seq::<Piece>::empty(),
    decreases pieces.len(),
{
    if pieces.len() > 0 {
        assert(ids.contains(pieces[pieces.len() - 1].id));
        assert forall|i: int| 0 <= i < pieces.drop_last().len() implies ids.contains(
            (#[trigger] pieces.drop_last()[i]).id,
        ) by {
            assert(pieces.drop_last()[i] == pieces[i]);
        }
        lemma_without_all(pieces.drop_last(), ids);
    }
}

proof fn lemma_without_none(pieces: Seq<Piece>, ids: Set<i64>)
    requires
        forall|i: int| 0 <= i < pieces.len() ==> !ids.contains((#[trigger] pieces[i]).id),
    ensures
        without(pieces, ids) == pieces,
    decreases pieces.len(),
{
    if pieces.len() > 0 {
        assert(!ids.contains(pieces[pieces.len() - 1].id));
        assert forall|i: int| 0 <= i < pieces.drop_last().len() implies !ids.contains(
            (#[trigger] pieces.drop_last()[i]).id,
        ) by {
            assert(pieces.drop_last()[i] == pieces[i]);
        }
        lemma_without_none(pieces.drop_last(), ids);
        assert(pieces.drop_last().push(pieces.last()) =~= pieces);
    } else {
        assert(without(pieces, ids) =~= pieces);
    }
}

/// Ids that none of the pieces has make no difference.
proof fn lemma_without_same(pieces: Seq<Piece>, a: Set<i64>, b: Set<i64>)
    requires
        forall|i: int| 0 <= i < pieces.len() ==> a.contains((#[trigger] pieces[i]).id) == b.contains(pieces[i].id),
    ensures
        without(pieces, a) == without(pieces, b),
    decreases pieces.len(),
{
    if pieces.len() > 0 {
        assert(a.contains(pieces[pieces.len() - 1].id) == b.contains(pieces.last().id));
        assert forall|i: int| 0 <= i < pieces.drop_last().len() implies a.contains(
            (#[trigger] pieces.drop_last()[i]).id,
        ) == b.contains(pieces.drop_last()[i].id) by {
            assert(pieces.drop_last()[i] == pieces[i]);
        }
        lemma_without_same(pieces.drop_last(), a, b);
    }
}

/// What is left of pieces is some of them, in their order.
proof fn lemma_without_distinct(pieces: Seq<Piece>, ids: Set<i64>)
    requires
        distinct(pieces),
    ensures
        distinct(without(pieces, ids)),
        forall|i: int|
            0 <= i < without(pieces, ids).len() ==> has_id(pieces, (#[trigger] without(pieces, ids)[i]).id)
                && !ids.contains(without(pieces, ids)[i].id),
    decreases pieces.len(),
{
    if pieces.len() > 0 {
        let rest = pieces.drop_last();
        let last = pieces.last();
        assert(distinct(rest)) by {
            assert forall|i: int| 0 <= i < rest.len() implies (#[trigger] rest[i]).id > 0 by {
                assert(pieces[i].id > 0);
            }
            assert forall|i: int, j: int| 0 <= i < j < rest.len() implies (#[trigger] rest[i]).id != (
            #[trigger] rest[j]).id by {
                assert(pieces[i].id != pieces[j].id);
            }
        }
        lemma_without_distinct(rest, ids);
        let kept = without(rest, ids);
        let all = without(pieces, ids);
        assert(pieces[pieces.len() - 1].id > 0);
        assert forall|i: int| 0 <= i < kept.len() implies has_id(pieces, (#[trigger] kept[i]).id)
            && kept[i].id != last.id by {
            let j = choose|j: int| 0 <= j < rest.len() && (#[trigger] rest[j]).id == kept[i].id;
            assert(pieces[j].id != pieces[pieces.len() - 1].id);
        }
        assert forall|i: int| 0 <= i < all.len() implies has_id(pieces, (#[trigger] all[i]).id)
            && !ids.contains(all[i].id) && all[i].id > 0 by {
            if i < kept.len() {
                assert(all[i] == kept[i]);
            } else {
                assert(pieces[pieces.len() - 1].id == all[i].id);
            }
        }
        assert forall|i: int, j: int| 0 <= i < j < all.len() implies (#[trigger] all[i]).id != (
        #[trigger] all[j]).id by {
            assert(all[i] == kept[i]);
            if j < kept.len() {
                assert(all[j] == kept[j]);
            }
        }
    }
}

// ---------- one run ----------

/// A row's deletes are of its cells and its index entries.
proof fn lemma_row_deletes(row: PieceRow, id: i64, column: PieceColumn)
    ensures
        writes_to(row_deletes(row), piece_key(id, column)) == (row.id == id),
        forall|i: int| 0 <= i < row_deletes(row).len() ==> (#[trigger] row_deletes(row)[i]) is Delete,
        forall|i: int|
            0 <= i < row_deletes(row).len() ==> !((#[trigger] row_deletes(row)[i]).key() is PieceHead)
                && !(row_deletes(row)[i].key() is PieceTail),
{
    let columns = piece_columns();
    let deletes = row_deletes(row);
    assert forall|i: int| 0 <= i < columns.len() implies (#[trigger] deletes[i]) == (
    BatchOpView::Delete { key: piece_key(row.id, columns[i]) }) by {}
    assert(deletes.len() == 9);
    if row.id == id {
        let i: int = match column {
            PieceColumn::ListNumber => 0,
            PieceColumn::PrevId => 1,
            PieceColumn::NextId => 2,
            PieceColumn::BufferId => 3,
            PieceColumn::StartByte => 4,
            PieceColumn::LenBytes => 5,
            PieceColumn::Tombstone => 6,
        };
        assert(columns[i] == column);
        assert(deletes[i].key() == piece_key(id, column));
    } else {
        assert forall|i: int| 0 <= i < deletes.len() implies (#[trigger] deletes[i]).key() != piece_key(
            id,
            column,
        ) by {
            if i < 7 {
                lemma_piece_keys(row.id, columns[i], id, column);
            }
        }
    }
}

spec fn has_row_id(rows: Seq<PieceRow>, id: i64) -> bool {
    exists|i: int| 0 <= i < rows.len() && (#[trigger] rows[i]).id == id
}

proof fn lemma_rows_deletes(rows: Seq<PieceRow>, id: i64, column: PieceColumn)
    ensures
        writes_to(rows_deletes(rows), piece_key(id, column)) == has_row_id(rows, id),
        forall|i: int| 0 <= i < rows_deletes(rows).len() ==> (#[trigger] rows_deletes(rows)[i]) is Delete,
        forall|i: int|
            0 <= i < rows_deletes(rows).len() ==> !((#[trigger] rows_deletes(rows)[i]).key() is PieceHead)
                && !(rows_deletes(rows)[i].key() is PieceTail),
    decreases rows.len(),
{
    if rows.len() > 0 {
        let rest = rows.drop_last();
        let last = rows.last();
        lemma_rows_deletes(rest, id, column);
        lemma_row_deletes(last, id, column);
        let a = rows_deletes(rest);
        let b = row_deletes(last);
        let key = piece_key(id, column);
        assert forall|i: int| 0 <= i < (a + b).len() implies (#[trigger] (a + b)[i]) is Delete && !((a
            + b)[i].key() is PieceHead) && !((a + b)[i].key() is PieceTail) by {
            if i < a.len() {
                assert((a + b)[i] == a[i]);
            } else {
                assert((a + b)[i] == b[i - a.len()]);
            }
        }
        if has_row_id(rows, id) {
            let i = choose|i: int| 0 <= i < rows.len() && (#[trigger] rows[i]).id == id;
            if i < rest.len() {
                assert(rest[i].id == id);
                let j = choose|j: int| 0 <= j < a.len() && (#[trigger] a[j]).key() == key;
                assert((a + b)[j].key() == key);
            } else {
                let j = choose|j: int| 0 <= j < b.len() && (#[trigger] b[j]).key() == key;
                assert((a + b)[a.len() + j].key() == key);
            }
        }
        if writes_to(a + b, key) {
            let j = choose|j: int| 0 <= j < (a + b).len() && (#[trigger] (a + b)[j]).key() == key;
            if j < a.len() {
                assert(a[j].key() == key);
                let i = choose|i: int| 0 <= i < rest.len() && (#[trigger] rest[i]).id == id;
                assert(rows[i].id == id);
            } else {
                assert(b[j - a.len()].key() == key);
                assert(rows[rows.len() - 1].id == id);
            }
        }
    }
}

/// What taking rows out between two others does to the cells and the endpoints.
proof fn lemma_run_written(tree: Tree, list_number: i64, prev: i64, next: i64, rows: Seq<PieceRow>, id: i64, column: PieceColumn)
    requires
        !has_row_id(rows, prev),
        !has_row_id(rows, next),
        prev == 0 || prev != next,
    ensures
        ({
            let after = written(tree, writes_between(list_number, prev, next, rows));
            let key = piece_key(id, column);
            let head = KeyView::PieceHead { list_number };
            let tail = KeyView::PieceTail { list_number };
            &&& if has_row_id(rows, id) {
                !after.contains_key(key)
            } else if prev != 0 && id == prev && column == PieceColumn::NextId {
                holds(after, key, ValueView::Int(next))
            } else if next != 0 && id == next && column == PieceColumn::PrevId {
                holds(after, key, ValueView::Int(prev))
            } else {
                same_at(tree, after, key)
            }
            &&& if prev == 0 {
                holds(after, head, ValueView::Raw(i64_be(next)))
            } else {
                same_at(tree, after, head)
            }
            &&& if next == 0 {
                holds(after, tail, ValueView::Raw(i64_be(prev)))
            } else {
                same_at(tree, after, tail)
            }
        }),
{
    let forward = forward_link(list_number, prev, next);
    let backward = backward_link(list_number, prev, next);
    let links = seq![forward, backward];
    let deletes = rows_deletes(rows);
    let key = piece_key(id, column);
    let linked = written(tree, links);
    lemma_written_then(tree, links, deletes);
    let one = seq![forward];
    assert(links.drop_last() =~= one);
    assert(one.drop_last() =~= Seq::empty());
    assert(written(tree, one.drop_last()) == tree);
    assert(written(tree, one) == after_write(tree, forward));
    assert(linked == after_write(after_write(tree, forward), backward));
    lemma_piece_keys(id, column, prev, PieceColumn::NextId);
    lemma_piece_keys(id, column, next, PieceColumn::PrevId);
    lemma_piece_keys(prev, PieceColumn::NextId, next, PieceColumn::PrevId);
    lemma_rows_deletes(rows, id, column);
    let head = KeyView::PieceHead { list_number };
    let tail = KeyView::PieceTail { list_number };
    assert(!writes_to(deletes, head));
    assert(!writes_to(deletes, tail));
    lemma_unwritten(linked, deletes, head);
    lemma_unwritten(linked, deletes, tail);
    if has_row_id(rows, id) {
        lemma_deleted(linked, deletes, key);
    } else {
        lemma_unwritten(linked, deletes, key);
    }
}

/// Pieces with others taken out from between them.
proof fn lemma_taken_out(
    tree: Tree,
    list_number: i64,
    x: Seq<Piece>,
    block: Seq<Piece>,
    y: Seq<Piece>,
    rows: Seq<PieceRow>,
)
    requires
        stores(tree, list_number, x + block + y),
        distinct(x + block + y),
        rows.len() == block.len(),
        block.len() > 0,
        forall|i: int| 0 <= i < rows.len() ==> (#[trigger] rows[i]).id == block[i].id,
    ensures
        ({
            let prev = id_at(x, x.len() - 1);
            let next = id_at(y, 0);
            let after = written(tree, writes_between(list_number, prev, next, rows));
            &&& stores(after, list_number, x + y)
            &&& forall|i: int| 0 <= i < block.len() ==> lacks_row(after, (#[trigger] block[i]).id)
            &&& forall|id: i64|
                #[trigger] lacks_row(tree, id) && id != prev && id != next ==> lacks_row(after, id)
        }),
{
    let before = x + block + y;
    let rest = x + y;
    let prev = id_at(x, x.len() - 1);
    let next = id_at(y, 0);
    let after = written(tree, writes_between(list_number, prev, next, rows));
    let n = x.len() as int;
    let m = block.len() as int;
    assert forall|i: int| 0 <= i < rows.len() implies (#[trigger] rows[i]).id == before[n + i].id by {}
    assert forall|k: int| 0 <= k < before.len() && !(n <= k < n + m) implies !has_row_id(
        rows,
        (#[trigger] before[k]).id,
    ) by {
        if has_row_id(rows, before[k].id) {
            let i = choose|i: int| 0 <= i < rows.len() && (#[trigger] rows[i]).id == before[k].id;
            assert(before[n + i].id == before[k].id);
        }
    }
    assert(!has_row_id(rows, 0)) by {
        if has_row_id(rows, 0) {
            let i = choose|i: int| 0 <= i < rows.len() && (#[trigger] rows[i]).id == 0;
            assert(before[n + i].id > 0);
        }
    }
    if n > 0 {
        assert(before[n - 1].id == prev);
    }
    if y.len() > 0 {
        assert(before[n + m].id == next);
    }
    assert(prev == 0 || prev != next) by {
        if n > 0 && y.len() > 0 {
            assert(before[n - 1].id != before[n + m].id);
        }
    }
    assert forall|i: int| 0 <= i < rest.len() implies has_row(
        after,
        #[trigger] row_in(list_number, rest, i),
    ) by {
        let row = row_in(list_number, rest, i);
        let k = if i < n { i } else { i + m };
        let old_row = row_in(list_number, before, k);
        assert(rest[i] == before[k]);
        assert(has_row(tree, old_row));
        if 0 < i {
            assert(rest[i - 1] == before[if i - 1 < n { i - 1 } else { i - 1 + m }]);
        }
        if i + 1 < rest.len() {
            assert(rest[i + 1] == before[if i + 1 < n { i + 1 } else { i + 1 + m }]);
        }
        if n > 0 && i != n - 1 {
            assert(before[k].id != before[n - 1].id);
        }
        if y.len() > 0 && i != n {
            assert(before[k].id != before[n + m].id);
        }
        assert forall|column: PieceColumn| #[trigger] holds(
            after,
            piece_key(row.id, column),
            ValueView::Int(cell_of(row, column)),
        ) by {
            lemma_run_written(tree, list_number, prev, next, rows, row.id, column);
            assert(holds(
                tree,
                piece_key(old_row.id, column),
                ValueView::Int(cell_of(old_row, column)),
            ));
        }
    }
    lemma_run_written(tree, list_number, prev, next, rows, 0, PieceColumn::ListNumber);
    assert(id_at(rest, 0) == if n == 0 { next } else { id_at(before, 0) });
    assert(id_at(rest, rest.len() - 1) == if y.len() == 0 { prev } else { id_at(before, before.len() - 1) });
    assert forall|id: i64| #[trigger] holds(
        after,
        piece_key(id, PieceColumn::ListNumber),
        ValueView::Int(list_number),
    ) implies has_id(rest, id) by {
        lemma_run_written(tree, list_number, prev, next, rows, id, PieceColumn::ListNumber);
        assert(holds(tree, piece_key(id, PieceColumn::ListNumber), ValueView::Int(list_number)));
        assert(has_id(before, id));
        let k = choose|k: int| 0 <= k < before.len() && (#[trigger] before[k]).id == id;
        if k < n {
            assert(rest[k].id == id);
        } else if k >= n + m {
            assert(rest[k - m].id == id);
        } else {
            assert(rows[k - n].id == id);
        }
    }
    assert forall|i: int| 0 <= i < block.len() implies lacks_row(after, (#[trigger] block[i]).id) by {
        assert(rows[i].id == block[i].id);
        assert forall|column: PieceColumn| !#[trigger] after.contains_key(
            piece_key(block[i].id, column),
        ) by {
            lemma_run_written(tree, list_number, prev, next, rows, block[i].id, column);
        }
    }
    assert forall|id: i64| #[trigger] lacks_row(tree, id) && id != prev && id != next implies lacks_row(
        after,
        id,
    ) by {
        assert forall|column: PieceColumn| !#[trigger] after.contains_key(piece_key(id, column)) by {
            lemma_run_written(tree, list_number, prev, next, rows, id, column);
            assert(!tree.contains_key(piece_key(id, column)));
        }
    }
}

// ---------- runs ----------

pub proof fn lemma_rows_of_run(answers: Answers, list_number: i64, run: Seq<i64>)
    requires
        run_rows(answers, list_number, run) is Ok,
    ensures
        ({
            let rows = run_rows(answers, list_number, run)->Ok_0;
            &&& rows.len() == run.len()
            &&& forall|i: int|
                0 <= i < rows.len() ==> piece_row(answers, (#[trigger] rows[i]).id) == Ok::<
                    PieceRow,
                    ChangelogError,
                >(rows[i]) && rows[i].id == run[i] && rows[i].list_number == list_number
                    && rows[i].coord.tombstone
        }),
    decreases run.len(),
{
    if run.len() > 0 {
        lemma_rows_of_run(answers, list_number, run.drop_last());
    }
}

proof fn lemma_links_of_run(rows: Seq<PieceRow>, i: int)
    requires
        run_links_fault(rows) is None,
        0 <= i < rows.len() - 1,
    ensures
        rows[i].next_id == rows[i + 1].id,
    decreases rows.len(),
{
    if i < rows.len() - 2 {
        lemma_links_of_run(rows.drop_last(), i);
    }
}

proof fn lemma_piece_of_row(
    answers: Answers,
    tree: Tree,
    list_number: i64,
    pieces: Seq<Piece>,
    row: PieceRow,
) -> (i: int)
    requires
        reads_tree(answers, tree),
        stores(tree, list_number, pieces),
        distinct(pieces),
        piece_row(answers, row.id) == Ok::<PieceRow, ChangelogError>(row),
        row.list_number == list_number,
    ensures
        0 <= i < pieces.len(),
        row == row_in(list_number, pieces, i),
{
    lemma_row_read(answers, tree, row.id);
    assert(has_id(pieces, row.id));
    let i = choose|i: int| 0 <= i < pieces.len() && (#[trigger] pieces[i]).id == row.id;
    assert(has_row(tree, row_in(list_number, pieces, i)));
    lemma_row_found(answers, tree, row_in(list_number, pieces, i));
    i
}

/// The rows of a run follow each other in the document.
proof fn lemma_run_in_chain(
    answers: Answers,
    tree: Tree,
    list_number: i64,
    pieces: Seq<Piece>,
    run: Seq<i64>,
) -> (a: int)
    requires
        reads_tree(answers, tree),
        stores(tree, list_number, pieces),
        distinct(pieces),
        run.len() > 0,
        run_rows(answers, list_number, run) is Ok,
        run_links_fault(run_rows(answers, list_number, run)->Ok_0) is None,
    ensures
        0 <= a,
        a + run.len() <= pieces.len(),
        forall|i: int|
            0 <= i < run.len() ==> (#[trigger] run_rows(answers, list_number, run)->Ok_0[i]) == row_in(
                list_number,
                pieces,
                a + i,
            ),
{
    let rows = run_rows(answers, list_number, run)->Ok_0;
    lemma_rows_of_run(answers, list_number, run);
    let a = lemma_piece_of_row(answers, tree, list_number, pieces, rows[0]);
    lemma_run_from(answers, tree, list_number, pieces, run, a, rows.len() as int);
    a
}

proof fn lemma_run_from(
    answers: Answers,
    tree: Tree,
    list_number: i64,
    pieces: Seq<Piece>,
    run: Seq<i64>,
    a: int,
    n: int,
)
    requires
        reads_tree(answers, tree),
        stores(tree, list_number, pieces),
        distinct(pieces),
        run_rows(answers, list_number, run) is Ok,
        run_links_fault(run_rows(answers, list_number, run)->Ok_0) is None,
        0 <= a < pieces.len(),
        1 <= n <= run.len(),
        run_rows(answers, list_number, run)->Ok_0[0] == row_in(list_number, pieces, a),
    ensures
        a + n <= pieces.len(),
        forall|i: int|
            0 <= i < n ==> (#[trigger] run_rows(answers, list_number, run)->Ok_0[i]) == row_in(
                list_number,
                pieces,
                a + i,
            ),
    decreases n,
{
    let rows = run_rows(answers, list_number, run)->Ok_0;
    lemma_rows_of_run(answers, list_number, run);
    if n > 1 {
        lemma_run_from(answers, tree, list_number, pieces, run, a, n - 1);
        lemma_links_of_run(rows, n - 2);
        assert(rows[n - 2] == row_in(list_number, pieces, a + n - 2));
        let row = rows[n - 1];
        let k = lemma_piece_of_row(answers, tree, list_number, pieces, row);
        assert(pieces[k].id > 0);
        assert(row.id == id_at(pieces, a + n - 1));
        if k != a + n - 1 {
            assert(pieces[k].id == pieces[a + n - 1].id);
        }
    }
}

/// All pieces with these ids are deleted.
pub open spec fn all_deleted(pieces: Seq<Piece>, ids: Set<i64>) -> bool {
    forall|i: int|
        0 <= i < pieces.len() && ids.contains((#[trigger] pieces[i]).id) ==> pieces[i].coord.tombstone
}

proof fn lemma_without_text(pieces: Seq<Piece>, ids: Set<i64>)
    requires
        all_deleted(pieces, ids),
    ensures
        text(without(pieces, ids)) == text(pieces),
    decreases pieces.len(),
{
    if pieces.len() > 0 {
        let rest = pieces.drop_last();
        assert(all_deleted(rest, ids)) by {
            assert forall|i: int| 0 <= i < rest.len() && ids.contains((#[trigger] rest[i]).id) implies rest[i].coord.tombstone by {
                assert(rest[i] == pieces[i]);
            }
        }
        lemma_without_text(rest, ids);
        assert(pieces[pieces.len() - 1] == pieces.last());
        if !ids.contains(pieces.last().id) {
            let kept = without(rest, ids);
            assert(kept.push(pieces.last()).drop_last() =~= kept);
        }
    }
}

proof fn lemma_without_first(pieces: Seq<Piece>, ids: Set<i64>)
    requires
        pieces.len() > 0,
        !ids.contains(pieces[0].id),
    ensures
        id_at(without(pieces, ids), 0) == pieces[0].id,
{
    let first = seq![pieces[0]];
    let rest = pieces.drop_first();
    assert(pieces =~= first + rest);
    lemma_without_concat(first, rest, ids);
    lemma_without_none(first, ids);
}

/// The state of a cleanup after some of its runs.
spec fn cleaned(
    tree: Tree,
    list_number: i64,
    pieces: Seq<Piece>,
    writes: Seq<BatchOpView>,
    ids: Set<i64>,
) -> bool {
    &&& stores(written(tree, writes), list_number, without(pieces, ids))
    &&& forall|id: i64| #[trigger] ids.contains(id) ==> has_id(pieces, id) && lacks_row(
        written(tree, writes),
        id,
    )
    &&& all_deleted(pieces, ids)
}

/// What is left of pieces before and after a block of them goes too.
proof fn lemma_block_goes(pieces: Seq<Piece>, gone: Set<i64>, run: Seq<i64>, a: int)
    requires
        distinct(pieces),
        0 <= a,
        a + run.len() <= pieces.len(),
        forall|i: int| 0 <= i < run.len() ==> (#[trigger] pieces[a + i]).id == run[i],
        run.to_set().disjoint(gone),
        !gone.contains(id_at(pieces, a - 1)),
        !gone.contains(id_at(pieces, (a + run.len()) as int)),
    ensures
        ({
            let b = (a + run.len()) as int;
            let x = without(pieces.take(a), gone);
            let y = without(pieces.skip(b), gone);
            &&& without(pieces, gone) == x + pieces.subrange(a, b) + y
            &&& without(pieces, gone.union(run.to_set())) == x + y
            &&& id_at(x, x.len() - 1) == id_at(pieces, a - 1)
            &&& id_at(y, 0) == id_at(pieces, b)
        }),
{
    let m = run.len() as int;
    let all = gone.union(run.to_set());
    let left = pieces.take(a);
    let block = pieces.subrange(a, a + m);
    let right = pieces.skip(a + m);
    assert(pieces =~= left + block + right);
    let x = without(left, gone);
    let y = without(right, gone);
    assert forall|i: int| 0 <= i < block.len() implies !gone.contains((#[trigger] block[i]).id)
        && all.contains(block[i].id) by {
        assert(pieces[a + i].id == run[i]);
        assert(run.to_set().contains(run[i]));
    }
    assert forall|k: int| 0 <= k < pieces.len() && !(a <= k < a + m) implies !run.contains(
        (#[trigger] pieces[k]).id,
    ) by {
        if run.contains(pieces[k].id) {
            let j = choose|j: int| 0 <= j < run.len() && run[j] == pieces[k].id;
            assert(pieces[a + j].id == pieces[k].id);
        }
    }
    lemma_without_concat(left + block, right, gone);
    lemma_without_concat(left, block, gone);
    lemma_without_none(block, gone);
    lemma_without_concat(left + block, right, all);
    lemma_without_concat(left, block, all);
    lemma_without_all(block, all);
    assert forall|i: int| 0 <= i < left.len() implies all.contains((#[trigger] left[i]).id)
        == gone.contains(left[i].id) by {
        assert(left[i] == pieces[i]);
    }
    lemma_without_same(left, all, gone);
    assert forall|i: int| 0 <= i < right.len() implies all.contains((#[trigger] right[i]).id)
        == gone.contains(right[i].id) by {
        assert(right[i] == pieces[a + m + i]);
    }
    lemma_without_same(right, all, gone);
    assert(x + Seq::<Piece>::empty() + y =~= x + y);
    if a > 0 {
        assert(left.last() == pieces[a - 1]);
    }
    if a + m < pieces.len() {
        assert(right[0] == pieces[a + m]);
        lemma_without_first(right, gone);
    }
}

/// The rows of a run are deleted pieces of the chain.
proof fn lemma_run_deleted(pieces: Seq<Piece>, gone: Set<i64>, run: Seq<i64>, a: int)
    requires
        distinct(pieces),
        all_deleted(pieces, gone),
        0 <= a,
        a + run.len() <= pieces.len(),
        forall|i: int|
            0 <= i < run.len() ==> (#[trigger] pieces[a + i]).id == run[i] && pieces[a + i].coord.tombstone,
    ensures
        all_deleted(pieces, gone.union(run.to_set())),
{
    let all = gone.union(run.to_set());
    assert forall|k: int| 0 <= k < pieces.len() && all.contains((#[trigger] pieces[k]).id) implies pieces[k].coord.tombstone by {
        if run.contains(pieces[k].id) {
            let j = choose|j: int| 0 <= j < run.len() && run[j] == pieces[k].id;
            assert(pieces[a + j].id == pieces[k].id);
            assert(k == a + j);
        }
    }
}

#[verifier::spinoff_prover]
proof fn lemma_run_cleans(
    answers: Answers,
    tree: Tree,
    list_number: i64,
    head_id: i64,
    tail_id: i64,
    pieces: Seq<Piece>,
    removed: Set<i64>,
    before: RunsState,
    gone: Set<i64>,
    run: Seq<i64>,
)
    requires
        reads_tree(answers, tree),
        stores(tree, list_number, pieces),
        distinct(pieces),
        cleaned(tree, list_number, pieces, before.writes, gone),
        run.len() > 0,
        gone.subset_of(removed),
        run.to_set().disjoint(gone),
        run_step(answers, list_number, head_id, tail_id, removed, before, run) is Ok,
    ensures
        cleaned(
            tree,
            list_number,
            pieces,
            run_step(answers, list_number, head_id, tail_id, removed, before, run)->Ok_0.writes,
            gone.union(run.to_set()),
        ),
{
    let rows = run_rows(answers, list_number, run)->Ok_0;
    lemma_rows_of_run(answers, list_number, run);
    let a = lemma_run_in_chain(answers, tree, list_number, pieces, run);
    let m = run.len() as int;
    let all = gone.union(run.to_set());
    let prev = rows[0].prev_id;
    let next = rows.last().next_id;
    let x = without(pieces.take(a), gone);
    let y = without(pieces.skip(a + m), gone);
    let block = pieces.subrange(a, a + m);
    assert(rows[m - 1] == row_in(list_number, pieces, a + (m - 1)));
    assert(prev == id_at(pieces, a - 1) && next == id_at(pieces, a + m));
    assert(!gone.contains(prev) && !gone.contains(next)) by {
        assert(claim_survivor(removed, before.claimed, prev) is Ok);
        if gone.contains(0) {
            assert(has_id(pieces, 0));
        }
    }
    assert forall|i: int| 0 <= i < m implies (#[trigger] pieces[a + i]).id == run[i]
        && pieces[a + i].coord.tombstone by {
        assert(rows[i] == row_in(list_number, pieces, a + i));
    }
    assert forall|i: int| 0 <= i < m implies (#[trigger] rows[i]).id == block[i].id by {
        assert(rows[i] == row_in(list_number, pieces, a + i));
    }
    lemma_block_goes(pieces, gone, run, a);
    lemma_run_deleted(pieces, gone, run, a);
    lemma_without_distinct(pieces, gone);
    let middle = written(tree, before.writes);
    lemma_taken_out(middle, list_number, x, block, y, rows);
    lemma_written_then(tree, before.writes, run_writes(list_number, rows));
    let after = written(middle, writes_between(list_number, prev, next, rows));
    assert forall|id: i64| #[trigger] all.contains(id) implies has_id(pieces, id) && lacks_row(
        after,
        id,
    ) by {
        if run.contains(id) {
            let j = choose|j: int| 0 <= j < run.len() && run[j] == id;
            assert(pieces[a + j].id == id);
            assert(block[j].id == id);
        } else {
            assert(gone.contains(id));
            assert(lacks_row(middle, id));
        }
    }
}

proof fn lemma_runs_clean(
    answers: Answers,
    tree: Tree,
    list_number: i64,
    head_id: i64,
    tail_id: i64,
    pieces: Seq<Piece>,
    removed: Set<i64>,
    runs: Seq<Seq<i64>>,
)
    requires
        reads_tree(answers, tree),
        stores(tree, list_number, pieces),
        distinct(pieces),
        forall|i: int| 0 <= i < runs.len() ==> (#[trigger] runs[i]).len() > 0,
        removed_rows(runs).no_duplicates(),
        removed_rows(runs).to_set().subset_of(removed),
        runs_step(answers, list_number, head_id, tail_id, removed, runs) is Ok,
    ensures
        cleaned(
            tree,
            list_number,
            pieces,
            runs_step(answers, list_number, head_id, tail_id, removed, runs)->Ok_0.writes,
            removed_rows(runs).to_set(),
        ),
    decreases runs.len(),
{
    let ids = removed_rows(runs).to_set();
    if runs.len() == 0 {
        assert(ids =~= Set::empty());
        lemma_without_none(pieces, ids);
    } else {
        let rest = runs.drop_last();
        let run = runs.last();
        let earlier = removed_rows(rest);
        let gone = earlier.to_set();
        assert forall|i: int| 0 <= i < rest.len() implies (#[trigger] rest[i]).len() > 0 by {
            assert(rest[i] == runs[i]);
        }
        let list = earlier + run;
        assert(removed_rows(runs) == list);
        assert(earlier.no_duplicates()) by {
            assert forall|i: int, j: int|
                0 <= i < earlier.len() && 0 <= j < earlier.len() && i != j implies earlier[i]
                != earlier[j] by {
                assert(list[i] == earlier[i] && list[j] == earlier[j]);
            }
        }
        assert(ids =~= gone.union(run.to_set())) by {
            assert forall|id: i64| #[trigger] ids.contains(id) == gone.union(run.to_set()).contains(
                id,
            ) by {
                if earlier.contains(id) {
                    let i = choose|i: int| 0 <= i < earlier.len() && earlier[i] == id;
                    assert(list[i] == id);
                }
                if run.contains(id) {
                    let i = choose|i: int| 0 <= i < run.len() && run[i] == id;
                    assert(list[earlier.len() + i] == id);
                }
                if list.contains(id) {
                    let i = choose|i: int| 0 <= i < list.len() && list[i] == id;
                    if i < earlier.len() {
                        assert(earlier[i] == id);
                    } else {
                        assert(run[i - earlier.len()] == id);
                    }
                }
            }
        }
        assert(run.to_set().disjoint(gone)) by {
            assert forall|id: i64| run.to_set().contains(id) && gone.contains(id) implies false by {
                let i = choose|i: int| 0 <= i < earlier.len() && earlier[i] == id;
                let j = choose|j: int| 0 <= j < run.len() && run[j] == id;
                assert(list[i] == list[earlier.len() + j]);
            }
        }
        lemma_runs_clean(answers, tree, list_number, head_id, tail_id, pieces, removed, rest);
        assert(runs[runs.len() - 1].len() > 0);
        let before = runs_step(answers, list_number, head_id, tail_id, removed, rest)->Ok_0;
        lemma_run_cleans(
            answers,
            tree,
            list_number,
            head_id,
            tail_id,
            pieces,
            removed,
            before,
            gone,
            run,
        );
    }
}

/// A cleanup leaves a document with its other pieces, linked to each other, no
/// cell of the removed rows, and the text that it had.
pub proof fn law_cleanup_keeps_text(
    answers: Answers,
    tree: Tree,
    list_number: i64,
    head_id: i64,
    tail_id: i64,
    pieces: Seq<Piece>,
    runs: Seq<Seq<i64>>,
)
    requires
        reads_tree(answers, tree),
        stores(tree, list_number, pieces),
        distinct(pieces),
        runs_fault(runs) is None,
        runs_step(
            answers,
            list_number,
            head_id,
            tail_id,
            removed_rows(runs).to_set(),
            runs,
        ) is Ok,
    ensures
        ({
            let removed = removed_rows(runs).to_set();
            let writes = runs_step(answers, list_number, head_id, tail_id, removed, runs)->Ok_0.writes;
            let after = written(tree, writes);
            let left = without(pieces, removed);
            &&& stores(after, list_number, left)
            &&& distinct(left)
            &&& text(left) == text(pieces)
            &&& all_deleted(pieces, removed)
            &&& forall|id: i64| #[trigger] removed.contains(id) ==> has_id(pieces, id) && lacks_row(after, id)
        }),
{
    let removed = removed_rows(runs).to_set();
    law_cleanup_runs(runs);
    lemma_runs_clean(answers, tree, list_number, head_id, tail_id, pieces, removed, runs);
    lemma_without_text(pieces, removed);
    lemma_without_distinct(pieces, removed);
}

/// The same of an entry that asks for a cleanup: its writes take the runs of its
/// envelope out of the document.
pub proof fn law_cleanup_operation(
    answers: Answers,
    checks: CleanupChecks,
    current_change_id: u64,
    entry: ChangelogEntry,
    tree: Tree,
    pieces: Seq<Piece>,
)
    requires
        reads_tree(answers, tree),
        cleanup_operation(answers, checks, current_change_id, entry) is Ok,
        stores(tree, cleanup_pieces_in_message(entry.message@)->Ok_0.list_number, pieces),
        distinct(pieces),
    ensures
        ({
            let envelope = cleanup_pieces_in_message(entry.message@)->Ok_0;
            let writes = cleanup_operation(answers, checks, current_change_id, entry)->Ok_0;
            let removed = removed_rows(envelope.runs).to_set();
            let after = written(tree, writes);
            let left = without(pieces, removed);
            &&& stores(after, envelope.list_number, left)
            &&& distinct(left)
            &&& text(left) == text(pieces)
            &&& all_deleted(pieces, removed)
            &&& forall|id: i64| #[trigger] removed.contains(id) ==> has_id(pieces, id) && lacks_row(after, id)
        }),
{
    let envelope = cleanup_pieces_in_message(entry.message@)->Ok_0;
    let (head_id, tail_id) = cleanup_endpoints(answers, checks, current_change_id, envelope)->Ok_0;
    law_cleanup_keeps_text(
        answers,
        tree,
        envelope.list_number,
        head_id,
        tail_id,
        pieces,
        envelope.runs,
    );
}

// ---------- writes and reads ----------

/// A key of a row of the list, of an index of its table, or of one of the list's
/// endpoints.
pub open spec fn is_list_key(list_number: i64, key: KeyView) -> bool {
    match key {
        KeyView::Column { table, .. } => table == piece_table(),
        KeyView::Index { table, .. } => table == piece_table(),
        KeyView::PieceHead { list_number: n } => n == list_number,
        KeyView::PieceTail { list_number: n } => n == list_number,
        _ => false,
    }
}

/// A key of a row of the table of buffers, of one of its indexes or of its counter.
pub open spec fn is_buffer_key(key: KeyView) -> bool {
    match key {
        KeyView::Column { table, .. } => table == buffer_table(),
        KeyView::Index { table, .. } => table == buffer_table(),
        KeyView::NextId { table } => table == buffer_table(),
        _ => false,
    }
}

pub open spec fn all_list_keys(list_number: i64, writes: Seq<BatchOpView>) -> bool {
    forall|k: int| 0 <= k < writes.len() ==> is_list_key(list_number, (#[trigger] writes[k]).key())
}

proof fn lemma_rows_deletes_count(list_number: i64, rows: Seq<PieceRow>)
    ensures
        rows_deletes(rows).len() == 9 * rows.len(),
        all_list_keys(list_number, rows_deletes(rows)),
    decreases rows.len(),
{
    if rows.len() > 0 {
        let rest = rows_deletes(rows.drop_last());
        lemma_rows_deletes_count(list_number, rows.drop_last());
        let all = rows_deletes(rows);
        assert forall|k: int| 0 <= k < all.len() implies is_list_key(
            list_number,
            (#[trigger] all[k]).key(),
        ) by {
            if k < rest.len() {
                assert(all[k] == rest[k]);
            } else {
                assert(all[k] == row_deletes(rows.last())[k - rest.len()]);
            }
        }
    }
}

pub proof fn lemma_runs_writes(
    answers: Answers,
    list_number: i64,
    head_id: i64,
    tail_id: i64,
    removed: Set<i64>,
    runs: Seq<Seq<i64>>,
)
    requires
        runs_step(answers, list_number, head_id, tail_id, removed, runs) is Ok,
    ensures
        ({
            let writes = runs_step(answers, list_number, head_id, tail_id, removed, runs)->Ok_0.writes;
            &&& writes.len() == 2 * runs.len() + 9 * removed_rows(runs).len()
            &&& !repeats_key(writes)
            &&& all_list_keys(list_number, writes)
        }),
    decreases runs.len(),
{
    if runs.len() > 0 {
        let rest = runs.drop_last();
        lemma_first_repeated(
            runs_step(answers, list_number, head_id, tail_id, removed, runs)->Ok_0.writes,
        );
        lemma_runs_writes(answers, list_number, head_id, tail_id, removed, rest);
        let before = runs_step(answers, list_number, head_id, tail_id, removed, rest)->Ok_0.writes;
        let writes = runs_step(answers, list_number, head_id, tail_id, removed, runs)->Ok_0.writes;
        let rows = run_rows(answers, list_number, runs.last())->Ok_0;
        lemma_rows_of_run(answers, list_number, runs.last());
        lemma_rows_deletes_count(list_number, rows);
        assert(removed_rows(runs) == removed_rows(rest) + runs.last());
        assert forall|k: int| 0 <= k < writes.len() implies is_list_key(
            list_number,
            (#[trigger] writes[k]).key(),
        ) by {
            if k < before.len() {
                assert(writes[k] == before[k]);
            } else if k >= before.len() + 2 {
                assert(writes[k] == rows_deletes(rows)[k - before.len() - 2]);
            }
        }
    }
}

/// What a cleanup writes and reads: two writes for each run and nine for each row,
/// no two to the same key, all to rows of the table of pieces or to the endpoints
/// of the list, and so none to the table of buffers; and it reads single keys and
/// nothing else. The envelope is made for the change that is under way.
pub proof fn law_cleanup_writes_and_reads(
    answers: Answers,
    checks: CleanupChecks,
    current_change_id: u64,
    entry: ChangelogEntry,
)
    requires
        cleanup_operation(answers, checks, current_change_id, entry) is Ok,
    ensures
        ({
            let envelope = cleanup_pieces_in_message(entry.message@)->Ok_0;
            let writes = cleanup_operation(answers, checks, current_change_id, entry)->Ok_0;
            &&& envelope.op_id == current_change_id
            &&& writes.len() == 2 * envelope.runs.len() + 9 * removed_rows(envelope.runs).len()
            &&& !repeats_key(writes)
            &&& all_list_keys(envelope.list_number, writes)
            &&& forall|k: int| 0 <= k < writes.len() ==> !is_buffer_key((#[trigger] writes[k]).key())
            &&& forall|k: int|
                0 <= k < cleanup_reads(entry).len() ==> (#[trigger] cleanup_reads(entry)[k]) is Key
        }),
{
    let envelope = cleanup_pieces_in_message(entry.message@)->Ok_0;
    let writes = cleanup_operation(answers, checks, current_change_id, entry)->Ok_0;
    let (head_id, tail_id) = cleanup_endpoints(answers, checks, current_change_id, envelope)->Ok_0;
    let removed = removed_rows(envelope.runs);
    lemma_runs_writes(
        answers,
        envelope.list_number,
        head_id,
        tail_id,
        removed.to_set(),
        envelope.runs,
    );
    assert(piece_table() != buffer_table()) by {
        reveal_strlit("_piecetext_pieces");
        reveal_strlit("_piecetext_buffers");
        assert(piece_table().len() != buffer_table().len());
    }
    assert forall|k: int| 0 <= k < writes.len() implies !is_buffer_key((#[trigger] writes[k]).key()) by {
        assert(is_list_key(envelope.list_number, writes[k].key()));
    }
    lemma_rows_reads_keys(removed);
    let way = document_reads(envelope.address, envelope.list_number);
    assert forall|k: int| 0 <= k < cleanup_reads(entry).len() implies (
    #[trigger] cleanup_reads(entry)[k]) is Key by {
        if k >= way.len() {
            assert(cleanup_reads(entry)[k] == rows_reads(removed)[k - way.len()]);
        } else {
            assert(cleanup_reads(entry)[k] == way[k]);
        }
    }
}

proof fn lemma_rows_reads_keys(ids: Seq<i64>)
    ensures
        forall|k: int| 0 <= k < rows_reads(ids).len() ==> (#[trigger] rows_reads(ids)[k]) is Key,
    decreases ids.len(),
{
    if ids.len() > 0 {
        let rest = rows_reads(ids.drop_last());
        lemma_rows_reads_keys(ids.drop_last());
        assert forall|k: int| 0 <= k < rows_reads(ids).len() implies (
        #[trigger] rows_reads(ids)[k]) is Key by {
            if k < rest.len() {
                assert(rows_reads(ids)[k] == rest[k]);
            } else {
                assert(rows_reads(ids)[k] == whole_row_reads(ids.last())[k - rest.len()]);
            }
        }
    }
}

} // verus!
