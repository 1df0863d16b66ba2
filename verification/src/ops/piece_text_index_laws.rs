//! The cells of the tables behind documents, and the index entries beside them.

use vstd::prelude::*;

use crate::changelog::{ChangelogEntry, ChangelogError};
use crate::ops::piece_text_cleanup_laws::{lemma_rows_of_run, lemma_runs_writes};
use crate::ops::piece_text_cleanup_pieces_op::{
    cleanup_endpoints, cleanup_operation, row_deletes, rows_deletes, run_rows, run_writes, runs_step,
    CleanupChecks,
};
use crate::ops::piece_text_tree::{
    cell_of, has_row, holds, lemma_unwritten, reads_tree, same_at, written, writes_to, Tree,
};
use crate::ops::repeats_key;
use crate::piece_text_cleanup::{cleanup_pieces_in_message, removed_rows};
use crate::piece_text_planner::PieceRow;
use crate::piece_text_resolver::{
    buffer_index_deletes, buffer_index_puts, buffer_rows, index_entry_row, index_rows, int_column, piece_columns,
    piece_coord, piece_index_deletes, piece_index_key, piece_index_puts, piece_key, piece_row, PieceColumn,
};
use crate::storage::{Answers, BatchOpView, IndexValueView, KeyView, ReadOpView, ValueView};

verus! {

// ---------- cells and entries ----------

/// The key of a cell of the table of pieces.
pub open spec fn piece_cell_key(row_id: i64, column: Seq<char>) -> KeyView {
    KeyView::Column { table: "_piecetext_pieces"@, row_id, column }
}

/// The key of an entry of an index of the table of pieces.
pub open spec fn piece_entry_key(column: Seq<char>, value: i64, row_id: i64) -> KeyView {
    KeyView::Index { table: "_piecetext_pieces"@, column, value: IndexValueView::Int(value), row_id }
}

/// Pieces are found by their buffer and by their list.
pub open spec fn is_indexed(column: Seq<char>) -> bool {
    column == "buffer_id"@ || column == "list_number"@
}

/// The row has an index entry under the value that its cell has, in each of the
/// indexes, and no other entry names it.
pub open spec fn well_indexed(tree: Tree, row_id: i64) -> bool {
    forall|column: Seq<char>, value: i64|
        #![trigger piece_entry_key(column, value, row_id)]
        is_indexed(column) ==> {
            &&& tree.contains_key(piece_entry_key(column, value, row_id)) <==> holds(
                tree,
                piece_cell_key(row_id, column),
                ValueView::Int(value),
            )
            &&& tree.contains_key(piece_entry_key(column, value, row_id))
                ==> tree[piece_entry_key(column, value, row_id)] == ValueView::RowId(row_id)
        }
}

/// No index entry names the row.
pub open spec fn not_indexed(tree: Tree, row_id: i64) -> bool {
    forall|column: Seq<char>, value: i64|
        is_indexed(column) ==> !#[trigger] tree.contains_key(piece_entry_key(column, value, row_id))
}

/// What a tree that has a row holds: one cell for each of its fields, under the
/// field's name.
pub proof fn law_row_cells(tree: Tree, row: PieceRow)
    ensures
        has_row(tree, row) <==> {
            let id = row.id;
            &&& holds(tree, piece_cell_key(id, "list_number"@), ValueView::Int(row.list_number))
            &&& holds(tree, piece_cell_key(id, "prev_id"@), ValueView::Int(row.prev_id))
            &&& holds(tree, piece_cell_key(id, "next_id"@), ValueView::Int(row.next_id))
            &&& holds(tree, piece_cell_key(id, "buffer_id"@), ValueView::Int(row.coord.buffer_id))
            &&& holds(tree, piece_cell_key(id, "start_byte"@), ValueView::Int(row.coord.start_byte as i64))
            &&& holds(tree, piece_cell_key(id, "len_bytes"@), ValueView::Int(row.coord.len_bytes as i64))
            &&& holds(
                tree,
                piece_cell_key(id, "tombstone"@),
                ValueView::Int(
                    if row.coord.tombstone {
                        1
                    } else {
                        0
                    },
                ),
            )
        },
{
    if has_row(tree, row) {
        assert forall|column: PieceColumn| holds(
            tree,
            #[trigger] piece_key(row.id, column),
            ValueView::Int(cell_of(row, column)),
        ) by {}
        let a = piece_key(row.id, PieceColumn::ListNumber);
        let b = piece_key(row.id, PieceColumn::PrevId);
        let c = piece_key(row.id, PieceColumn::NextId);
        let d = piece_key(row.id, PieceColumn::BufferId);
        let e = piece_key(row.id, PieceColumn::StartByte);
        let f = piece_key(row.id, PieceColumn::LenBytes);
        let g = piece_key(row.id, PieceColumn::Tombstone);
    }
}

// ---------- writes ----------

/// What is not there and never put, or is deleted and never put, is not there.
proof fn lemma_never_put(tree: Tree, writes: Seq<BatchOpView>, key: KeyView)
    requires
        forall|k: int| 0 <= k < writes.len() && (#[trigger] writes[k]).key() == key ==> writes[k] is Delete,
        !tree.contains_key(key) || writes_to(writes, key),
    ensures
        !written(tree, writes).contains_key(key),
    decreases writes.len(),
{
    if writes.len() > 0 {
        let rest = writes.drop_last();
        assert(writes[writes.len() - 1] == writes.last());
        if writes.last().key() != key {
            assert forall|k: int| 0 <= k < rest.len() && (#[trigger] rest[k]).key() == key implies rest[k] is Delete by {
                assert(rest[k] == writes[k]);
            }
            if writes_to(writes, key) {
                let k = choose|k: int| 0 <= k < writes.len() && (#[trigger] writes[k]).key() == key;
                assert(rest[k].key() == key);
            }
            lemma_never_put(tree, rest, key);
        }
    }
}

/// One write of several to different keys decides what its key holds.
proof fn lemma_deletes_alone(tree: Tree, writes: Seq<BatchOpView>, key: KeyView)
    requires
        !repeats_key(writes),
        writes.contains(BatchOpView::Delete { key }),
    ensures
        !written(tree, writes).contains_key(key),
{
    let i = writes.index_of(BatchOpView::Delete { key });
    assert(writes[i].key() == key);
    assert forall|k: int| 0 <= k < writes.len() && (#[trigger] writes[k]).key() == key implies writes[k] is Delete by {
        if k < i {
            assert(writes[k].key() == writes[i].key());
        } else if i < k {
            assert(writes[i].key() == writes[k].key());
        }
    }
    lemma_never_put(tree, writes, key);
}

// ---------- cleanup ----------

/// One of the runs has the row.
pub open spec fn is_removed(runs: Seq<Seq<i64>>, id: i64) -> bool {
    exists|i: int, j: int| 0 <= i < runs.len() && 0 <= j < runs[i].len() && #[trigger] runs[i][j] == id
}

/// A cleanup may write the key: a cell or an index entry of a row that goes, a link
/// of another row, or an endpoint of the list.
pub open spec fn may_clean(list_number: i64, runs: Seq<Seq<i64>>, key: KeyView) -> bool {
    match key {
        KeyView::Column { table, row_id, column } => table == "_piecetext_pieces"@ && (is_removed(runs, row_id)
            || column == "prev_id"@ || column == "next_id"@),
        KeyView::Index { table, row_id, .. } => table == "_piecetext_pieces"@ && is_removed(runs, row_id),
        KeyView::PieceHead { list_number: n } => n == list_number,
        KeyView::PieceTail { list_number: n } => n == list_number,
        _ => false,
    }
}

proof fn lemma_removed_last(runs: Seq<Seq<i64>>, id: i64)
    requires
        runs.len() > 0,
    ensures
        is_removed(runs, id) <==> is_removed(runs.drop_last(), id) || runs.last().contains(id),
{
    let rest = runs.drop_last();
    if is_removed(rest, id) {
        let (i, j) = choose|i: int, j: int|
            0 <= i < rest.len() && 0 <= j < rest[i].len() && #[trigger] rest[i][j] == id;
        assert(runs[i][j] == id);
    }
    if runs.last().contains(id) {
        let j = runs.last().index_of(id);
        assert(runs[runs.len() - 1][j] == id);
    }
    if is_removed(runs, id) {
        let (i, j) = choose|i: int, j: int|
            0 <= i < runs.len() && 0 <= j < runs[i].len() && #[trigger] runs[i][j] == id;
        if i < rest.len() {
            assert(rest[i][j] == id);
        } else {
            assert(runs.last()[j] == id);
        }
    }
}

/// The writes that take a row away, cells and entries.
spec fn takes_away(answers: Answers, writes: Seq<BatchOpView>, id: i64) -> bool {
    &&& piece_row(answers, id) matches Ok(row)
    &&& forall|column: PieceColumn| writes.contains(BatchOpView::Delete { key: #[trigger] piece_key(id, column) })
    &&& writes.contains(
        BatchOpView::Delete { key: piece_entry_key("buffer_id"@, row.coord.buffer_id, id) },
    )
    &&& writes.contains(BatchOpView::Delete { key: piece_entry_key("list_number"@, row.list_number, id) })
}

proof fn lemma_takes_away_more(answers: Answers, a: Seq<BatchOpView>, b: Seq<BatchOpView>, id: i64)
    requires
        takes_away(answers, a, id) || takes_away(answers, b, id),
    ensures
        takes_away(answers, a + b, id),
{
    let all = a + b;
    assert forall|op: BatchOpView| a.contains(op) || b.contains(op) implies #[trigger] all.contains(op) by {
        if a.contains(op) {
            let k = a.index_of(op);
            assert(all[k] == op);
        } else {
            let k = b.index_of(op);
            assert(all[a.len() + k] == op);
        }
    }
    assert forall|column: PieceColumn| all.contains(
        BatchOpView::Delete { key: #[trigger] piece_key(id, column) },
    ) by {
        let op = BatchOpView::Delete { key: piece_key(id, column) };
        assert(a.contains(op) || b.contains(op));
    }
}

proof fn lemma_row_taken(answers: Answers, row: PieceRow)
    requires
        piece_row(answers, row.id) == Ok::<PieceRow, ChangelogError>(row),
    ensures
        takes_away(answers, row_deletes(row), row.id),
        forall|k: int|
            0 <= k < row_deletes(row).len() ==> (#[trigger] row_deletes(row)[k]) is Delete && match row_deletes(
                row,
            )[k].key() {
                KeyView::Column { table, row_id, .. } => table == "_piecetext_pieces"@ && row_id == row.id,
                KeyView::Index { table, row_id, .. } => table == "_piecetext_pieces"@ && row_id == row.id,
                _ => false,
            },
{
    let columns = piece_columns();
    let deletes = row_deletes(row);
    assert forall|i: int| 0 <= i < columns.len() implies (#[trigger] deletes[i]) == (
    BatchOpView::Delete { key: piece_key(row.id, columns[i]) }) by {}
    assert(deletes.len() == 9);
    assert forall|column: PieceColumn| deletes.contains(
        BatchOpView::Delete { key: #[trigger] piece_key(row.id, column) },
    ) by {
        let i: int = match column {
            PieceColumn::ListNumber => 0,
            PieceColumn::PrevId => 1,
            PieceColumn::NextId => 2,
            PieceColumn::BufferId => 3,
            PieceColumn::StartByte => 4,
            PieceColumn::LenBytes => 5,
            PieceColumn::Tombstone => 6,
        };
        assert(columns[i] == column);
        assert(deletes[i] == (BatchOpView::Delete { key: piece_key(row.id, column) }));
    }
    assert(deletes[7] == (BatchOpView::Delete {
        key: piece_index_key(PieceColumn::BufferId, row.coord.buffer_id, row.id),
    }));
    assert(deletes[8] == (BatchOpView::Delete {
        key: piece_index_key(PieceColumn::ListNumber, row.list_number, row.id),
    }));
}

proof fn lemma_rows_taken(answers: Answers, rows: Seq<PieceRow>)
    requires
        forall|i: int|
            0 <= i < rows.len() ==> piece_row(answers, (#[trigger] rows[i]).id) == Ok::<PieceRow, ChangelogError>(
                rows[i],
            ),
    ensures
        forall|i: int|
            0 <= i < rows.len() ==> takes_away(answers, rows_deletes(rows), (#[trigger] rows[i]).id),
        forall|k: int|
            0 <= k < rows_deletes(rows).len() ==> (#[trigger] rows_deletes(rows)[k]) is Delete && match rows_deletes(
                rows,
            )[k].key() {
                KeyView::Column { table, row_id, .. } => table == "_piecetext_pieces"@ && has_id_in(rows, row_id),
                KeyView::Index { table, row_id, .. } => table == "_piecetext_pieces"@ && has_id_in(rows, row_id),
                _ => false,
            },
    decreases rows.len(),
{
    if rows.len() > 0 {
        let rest = rows.drop_last();
        let last = rows.last();
        assert forall|i: int| 0 <= i < rest.len() implies piece_row(answers, (#[trigger] rest[i]).id) == Ok::<
            PieceRow,
            ChangelogError,
        >(rest[i]) by {
            assert(rest[i] == rows[i]);
        }
        lemma_rows_taken(answers, rest);
        assert(rows[rows.len() - 1] == last);
        lemma_row_taken(answers, last);
        let a = rows_deletes(rest);
        let b = row_deletes(last);
        let all = rows_deletes(rows);
        assert(all == a + b);
        assert forall|i: int| 0 <= i < rows.len() implies takes_away(answers, all, (#[trigger] rows[i]).id) by {
            if i < rest.len() {
                assert(rest[i] == rows[i]);
            }
            lemma_takes_away_more(answers, a, b, rows[i].id);
        }
        assert forall|id: i64| #[trigger] has_id_in(rest, id) implies has_id_in(rows, id) by {
            let i = choose|i: int| 0 <= i < rest.len() && (#[trigger] rest[i]).id == id;
            assert(rows[i].id == id);
        }
        assert forall|k: int| 0 <= k < all.len() implies (#[trigger] all[k]) is Delete && match all[k].key() {
            KeyView::Column { table, row_id, .. } => table == "_piecetext_pieces"@ && has_id_in(rows, row_id),
            KeyView::Index { table, row_id, .. } => table == "_piecetext_pieces"@ && has_id_in(rows, row_id),
            _ => false,
        } by {
            if k < a.len() {
                assert(all[k] == a[k]);
            } else {
                assert(all[k] == b[k - a.len()]);
                assert(has_id_in(rows, last.id));
            }
        }
    }
}

spec fn has_id_in(rows: Seq<PieceRow>, id: i64) -> bool {
    exists|i: int| 0 <= i < rows.len() && (#[trigger] rows[i]).id == id
}

/// What runs write: what may be cleaned and nothing else, no put to an index, and
/// all that takes their rows away.
spec fn runs_clean(answers: Answers, list_number: i64, runs: Seq<Seq<i64>>, writes: Seq<BatchOpView>) -> bool {
    &&& forall|k: int| 0 <= k < writes.len() ==> may_clean(list_number, runs, (#[trigger] writes[k]).key())
    &&& forall|k: int| 0 <= k < writes.len() && (#[trigger] writes[k]).key() is Index ==> writes[k] is Delete
    &&& forall|id: i64| #[trigger] is_removed(runs, id) ==> takes_away(answers, writes, id)
}

proof fn lemma_runs_clean_indexes(
    answers: Answers,
    list_number: i64,
    head_id: i64,
    tail_id: i64,
    removed: Set<i64>,
    runs: Seq<Seq<i64>>,
)
    requires
        runs_step(answers, list_number, head_id, tail_id, removed, runs) is Ok,
    ensures
        runs_clean(
            answers,
            list_number,
            runs,
            runs_step(answers, list_number, head_id, tail_id, removed, runs)->Ok_0.writes,
        ),
    decreases runs.len(),
{
    if runs.len() > 0 {
        let rest = runs.drop_last();
        let run = runs.last();
        lemma_runs_clean_indexes(answers, list_number, head_id, tail_id, removed, rest);
        let before = runs_step(answers, list_number, head_id, tail_id, removed, rest)->Ok_0.writes;
        let writes = runs_step(answers, list_number, head_id, tail_id, removed, runs)->Ok_0.writes;
        let rows = run_rows(answers, list_number, run)->Ok_0;
        lemma_rows_of_run(answers, list_number, run);
        lemma_rows_taken(answers, rows);
        let more = run_writes(list_number, rows);
        let deletes = rows_deletes(rows);
        assert(writes == before + more);
        assert forall|id: i64| #[trigger] is_removed(rest, id) implies is_removed(runs, id) by {
            lemma_removed_last(runs, id);
        }
        assert forall|id: i64| #[trigger] has_id_in(rows, id) implies is_removed(runs, id) by {
            let i = choose|i: int| 0 <= i < rows.len() && (#[trigger] rows[i]).id == id;
            assert(run[i] == id);
            lemma_removed_last(runs, id);
        }
        assert forall|k: int| 0 <= k < writes.len() implies may_clean(
            list_number,
            runs,
            (#[trigger] writes[k]).key(),
        ) && (writes[k].key() is Index ==> writes[k] is Delete) by {
            if k < before.len() {
                assert(writes[k] == before[k]);
            } else {
                assert(writes[k] == more[k - before.len()]);
                if k - before.len() >= 2 {
                    assert(writes[k] == deletes[k - before.len() - 2]);
                }
            }
        }
        assert forall|id: i64| #[trigger] is_removed(runs, id) implies takes_away(answers, writes, id) by {
            lemma_removed_last(runs, id);
            if !is_removed(rest, id) {
                let j = run.index_of(id);
                assert(rows[j].id == id);
                let links = more.take(2);
                assert(more =~= links + deletes);
                lemma_takes_away_more(answers, links, deletes, id);
            }
            lemma_takes_away_more(answers, before, more, id);
        }
    }
}

proof fn lemma_row_cells_read(answers: Answers, tree: Tree, id: i64)
    requires
        reads_tree(answers, tree),
        piece_row(answers, id) is Ok,
    ensures
        has_row(tree, piece_row(answers, id)->Ok_0),
        piece_row(answers, id)->Ok_0.id == id,
{
    let row = piece_row(answers, id)->Ok_0;
    assert forall|column: PieceColumn| #[trigger]
        holds(tree, piece_key(row.id, column), ValueView::Int(cell_of(row, column))) by {
        let key = piece_key(id, column);
        assert(answers(ReadOpView::Key(key)) is Ok);
        assert(piece_coord(answers, id) is Ok);
        assert(int_column(answers, id, column) is Ok);
        assert(int_column(answers, id, column)->Ok_0 == cell_of(row, column));
    }
}

/// What a cleanup does to the tree beside the document. Where every index entry of
/// a row agrees with the row's cells, it does so afterwards, of every row: no entry
/// names a row that was removed. Nothing goes or changes but the cells and the
/// entries of the rows that are removed, the links of other rows and the endpoints
/// of the list; the entries of other rows stay.
pub proof fn law_cleanup_keeps_indexes(
    answers: Answers,
    checks: CleanupChecks,
    current_change_id: u64,
    entry: ChangelogEntry,
    tree: Tree,
)
    requires
        reads_tree(answers, tree),
        cleanup_operation(answers, checks, current_change_id, entry) is Ok,
    ensures
        ({
            let envelope = cleanup_pieces_in_message(entry.message@)->Ok_0;
            let writes = cleanup_operation(answers, checks, current_change_id, entry)->Ok_0;
            let after = written(tree, writes);
            &&& forall|id: i64| #[trigger] well_indexed(tree, id) ==> well_indexed(after, id)
            &&& forall|id: i64|
                is_removed(envelope.runs, id) && #[trigger] well_indexed(tree, id) ==> not_indexed(after, id)
            &&& forall|key: KeyView|
                !may_clean(envelope.list_number, envelope.runs, key) ==> #[trigger] same_at(tree, after, key)
        }),
{
    let envelope = cleanup_pieces_in_message(entry.message@)->Ok_0;
    let writes = cleanup_operation(answers, checks, current_change_id, entry)->Ok_0;
    let after = written(tree, writes);
    let (head_id, tail_id) = cleanup_endpoints(answers, checks, current_change_id, envelope)->Ok_0;
    let list_number = envelope.list_number;
    let runs = envelope.runs;
    let removed = removed_rows(runs).to_set();
    lemma_runs_clean_indexes(answers, list_number, head_id, tail_id, removed, runs);
    lemma_runs_writes(answers, list_number, head_id, tail_id, removed, runs);
    assert forall|key: KeyView| !may_clean(list_number, runs, key) implies #[trigger] same_at(tree, after, key) by {
        assert(!writes_to(writes, key));
        lemma_unwritten(tree, writes, key);
    }
    assert forall|id: i64| is_removed(runs, id) && #[trigger] well_indexed(tree, id) implies not_indexed(
        after,
        id,
    ) by {
        let row = piece_row(answers, id)->Ok_0;
        lemma_row_cells_read(answers, tree, id);
        law_row_cells(tree, row);
        assert forall|column: Seq<char>, value: i64| is_indexed(column) implies !#[trigger] after.contains_key(
            piece_entry_key(column, value, id),
        ) by {
            let key = piece_entry_key(column, value, id);
            if tree.contains_key(key) {
                assert(holds(tree, piece_cell_key(id, column), ValueView::Int(value)));
                lemma_deletes_alone(tree, writes, key);
            } else {
                lemma_never_put(tree, writes, key);
            }
        }
    }
    assert forall|id: i64| #[trigger] well_indexed(tree, id) implies well_indexed(after, id) by {
        lemma_indexed_names();
        if is_removed(runs, id) {
            assert forall|column: Seq<char>| is_indexed(column) implies !#[trigger] after.contains_key(
                piece_cell_key(id, column),
            ) by {
                let key = if column == "buffer_id"@ {
                    piece_key(id, PieceColumn::BufferId)
                } else {
                    piece_key(id, PieceColumn::ListNumber)
                };
                lemma_deletes_alone(tree, writes, key);
            }
            assert(not_indexed(after, id));
        } else {
            assert forall|column: Seq<char>, value: i64|
                #![trigger piece_entry_key(column, value, id)]
                is_indexed(column) implies {
                &&& after.contains_key(piece_entry_key(column, value, id)) <==> holds(
                    after,
                    piece_cell_key(id, column),
                    ValueView::Int(value),
                )
                &&& after.contains_key(piece_entry_key(column, value, id)) ==> after[piece_entry_key(
                    column,
                    value,
                    id,
                )] == ValueView::RowId(id)
            } by {
                assert(same_at(tree, after, piece_entry_key(column, value, id)));
                assert(!may_clean(list_number, runs, piece_cell_key(id, column)));
                assert(same_at(tree, after, piece_cell_key(id, column)));
            }
        }
    }
}

/// The columns that are indexed are not those of the links.
proof fn lemma_indexed_names()
    ensures
        "buffer_id"@ != "prev_id"@,
        "buffer_id"@ != "next_id"@,
        "list_number"@ != "prev_id"@,
        "list_number"@ != "next_id"@,
        "buffer_id"@ != "list_number"@,
{
    reveal_strlit("buffer_id");
    reveal_strlit("list_number");
    reveal_strlit("prev_id");
    reveal_strlit("next_id");
    assert("buffer_id"@.len() == 9 && "list_number"@.len() == 11 && "prev_id"@.len() == 7 && "next_id"@.len() == 7);
}

// ---------- entries of one row ----------

/// The entries that a new row gets lead to it from its buffer and from its list, and
/// what is deleted with a row is just that: where the entries were not there,
/// putting and deleting them leaves the tree as it was.
pub proof fn law_piece_entries(tree: Tree, row_id: i64, list_number: i64, buffer_id: i64)
    ensures
        ({
            let by_buffer = piece_entry_key("buffer_id"@, buffer_id, row_id);
            let by_list = piece_entry_key("list_number"@, list_number, row_id);
            let put = written(tree, piece_index_puts(row_id, list_number, buffer_id));
            &&& put == tree.insert(by_buffer, ValueView::RowId(row_id)).insert(by_list, ValueView::RowId(row_id))
            &&& written(tree, piece_index_deletes(row_id, list_number, buffer_id)) == tree.remove(
                by_buffer,
            ).remove(by_list)
            &&& !tree.contains_key(by_buffer) && !tree.contains_key(by_list) ==> written(
                put,
                piece_index_deletes(row_id, list_number, buffer_id),
            ) == tree
        }),
{
    reveal_with_fuel(written, 3);
    let puts = piece_index_puts(row_id, list_number, buffer_id);
    let deletes = piece_index_deletes(row_id, list_number, buffer_id);
    assert(puts.drop_last() =~= seq![puts[0]]);
    assert(puts.drop_last().drop_last() =~= Seq::empty());
    assert(deletes.drop_last() =~= seq![deletes[0]]);
    assert(deletes.drop_last().drop_last() =~= Seq::empty());
    let put = written(tree, puts);
    let by_buffer = piece_entry_key("buffer_id"@, buffer_id, row_id);
    let by_list = piece_entry_key("list_number"@, list_number, row_id);
    assert(written(put, deletes) =~= put.remove(by_buffer).remove(by_list));
    if !tree.contains_key(by_buffer) && !tree.contains_key(by_list) {
        assert(put.remove(by_buffer).remove(by_list) =~= tree);
    }
}

/// The same of a buffer: its entries lead to it from the table, the row and the
/// column of its owner.
pub proof fn law_buffer_entries(
    tree: Tree,
    row_id: i64,
    owner_table: Seq<char>,
    owner_row_id: i64,
    owner_column: Seq<char>,
)
    ensures
        ({
            let table = "_piecetext_buffers"@;
            let by_column = KeyView::Index {
                table,
                column: "owner_column"@,
                value: IndexValueView::Text(owner_column),
                row_id,
            };
            let by_row = KeyView::Index {
                table,
                column: "owner_row_id"@,
                value: IndexValueView::Int(owner_row_id),
                row_id,
            };
            let by_table = KeyView::Index {
                table,
                column: "owner_table"@,
                value: IndexValueView::Text(owner_table),
                row_id,
            };
            let puts = buffer_index_puts(row_id, owner_table, owner_row_id, owner_column);
            let deletes = buffer_index_deletes(row_id, owner_table, owner_row_id, owner_column);
            &&& written(tree, puts) == tree.insert(by_column, ValueView::RowId(row_id)).insert(
                by_row,
                ValueView::RowId(row_id),
            ).insert(by_table, ValueView::RowId(row_id))
            &&& written(tree, deletes) == tree.remove(by_column).remove(by_row).remove(by_table)
        }),
{
    reveal_with_fuel(written, 4);
    let puts = buffer_index_puts(row_id, owner_table, owner_row_id, owner_column);
    let deletes = buffer_index_deletes(row_id, owner_table, owner_row_id, owner_column);
    assert(puts.drop_last() =~= seq![puts[0], puts[1]]);
    assert(puts.drop_last().drop_last() =~= seq![puts[0]]);
    assert(puts.drop_last().drop_last().drop_last() =~= Seq::empty());
    assert(deletes.drop_last() =~= seq![deletes[0], deletes[1]]);
    assert(deletes.drop_last().drop_last() =~= seq![deletes[0]]);
    assert(deletes.drop_last().drop_last().drop_last() =~= Seq::empty());
}

// ---------- lookups ----------

/// An entry of the index by buffer: it is under the buffer and names its own row.
pub open spec fn is_entry_of(entry: (KeyView, ValueView), buffer_id: i64, row_id: i64) -> bool {
    row_id > 0 && entry.0 == piece_entry_key("buffer_id"@, buffer_id, row_id) && entry.1 == ValueView::RowId(row_id)
}

/// An entry of the index by buffer, for some row.
pub open spec fn is_entry(entry: (KeyView, ValueView), buffer_id: i64) -> bool {
    exists|row_id: i64| #[trigger] is_entry_of(entry, buffer_id, row_id)
}

proof fn lemma_index_rows(entries: Seq<(KeyView, ValueView)>, buffer_id: i64)
    ensures
        index_rows(entries, buffer_id) is Ok <==> forall|k: int|
            0 <= k < entries.len() ==> is_entry(#[trigger] entries[k], buffer_id),
        index_rows(entries, buffer_id) matches Ok(ids) ==> ids.len() == entries.len() && forall|k: int|
            0 <= k < entries.len() ==> is_entry_of(#[trigger] entries[k], buffer_id, ids[k]),
    decreases entries.len(),
{
    if entries.len() > 0 {
        let rest = entries.drop_last();
        let last = entries.last();
        lemma_index_rows(rest, buffer_id);
        assert(entries[entries.len() - 1] == last);
        let found = index_entry_row(last.0, last.1, buffer_id);
        assert(found matches Ok(row_id) ==> is_entry_of(last, buffer_id, row_id));
        assert forall|row_id: i64| #[trigger] is_entry_of(last, buffer_id, row_id) implies found is Ok by {}
        if index_rows(rest, buffer_id) is Err {
            let k = choose|k: int|
                0 <= k < rest.len() && !is_entry(#[trigger] rest[k], buffer_id);
            assert(entries[k] == rest[k]);
        } else {
            let before = index_rows(rest, buffer_id)->Ok_0;
            assert forall|k: int| 0 <= k < rest.len() implies is_entry_of(
                #[trigger] entries[k],
                buffer_id,
                before[k],
            ) by {
                assert(rest[k] == entries[k]);
            }
            if found is Ok {
                assert(is_entry_of(entries[entries.len() - 1], buffer_id, found->Ok_0));
            }
        }
    }
}

/// The rows of a buffer are those that the entries of the index by buffer name, in
/// the order in which the tree answers. Any entry of another kind, under another
/// buffer, or that names another row than its own, is refused.
pub proof fn law_rows_of_buffer(answers: Answers, buffer_id: i64)
    ensures
        ({
            let read = ReadOpView::IndexValue {
                table: "_piecetext_pieces"@,
                column: "buffer_id"@,
                value: IndexValueView::Int(buffer_id),
            };
            &&& buffer_rows(answers, buffer_id) is Ok <==> (answers(read) matches Ok(entries) && forall|k: int|
                0 <= k < entries.len() ==> is_entry(#[trigger] entries[k], buffer_id))
            &&& buffer_rows(answers, buffer_id) matches Ok(ids) ==> ids.len() == answers(read)->Ok_0.len() && forall|
                k: int,
            |
                0 <= k < ids.len() ==> is_entry_of(answers(read)->Ok_0[k], buffer_id, #[trigger] ids[k])
        }),
{
    let read = ReadOpView::IndexValue {
        table: "_piecetext_pieces"@,
        column: "buffer_id"@,
        value: IndexValueView::Int(buffer_id),
    };
    if let Ok(entries) = answers(read) {
        lemma_index_rows(entries, buffer_id);
        if let Ok(ids) = buffer_rows(answers, buffer_id) {
            assert forall|k: int| 0 <= k < ids.len() implies is_entry_of(entries[k], buffer_id, #[trigger] ids[k]) by {
                let entry = entries[k];
            }
        }
    }
}

} // verus!
