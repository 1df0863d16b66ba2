//! What an edit does to the tree: a document whose rows the tree stores is
//! stored afterwards with the chain that the edit leads to.

use vstd::prelude::*;

use crate::changelog::ChangelogEntry;
use crate::ops::piece_text_edit_op::{
    after, buffer_writes, buffers_writes, coord_writes, coords_by_id, edit_operation, edit_target,
    edit_writes, edited, endpoint_writes, int_put, next_id_writes, piece_writes, pieces_writes,
    raw_int_put, tombstone_value, update_writes, updates_writes, EditChecks, EditTarget,
};
use crate::ops::piece_text_tree::{
    cell_of, has_row, holds, lemma_piece_keys, lemma_put_value, lemma_unwritten, lemma_writes_to_concat,
    stores, writes_to, written, Tree,
};
use crate::piece_text::{
    decode_message, insert_total, AddressView, EnvelopeView, PieceCoord, PieceTextEditItemManifest,
};
use crate::piece_text_chain::{distinct, id_at, is_chain, row_in, Piece};
use crate::piece_text_edit_laws::{
    chain_writes, edit_is_at, is_state, law_edit_steps, law_edit_writes, lemma_edit_ids,
    same_writes, ChainState,
};
use crate::piece_text_edit_writes::{fresh_ids, has_id, has_no_others, row_with};
use crate::piece_text_overlay::{edit_doc, start_state, EditState, OverlayRest};
use crate::piece_text_planner::{BufferInsertView, OutputView, PieceRow, PieceRowInsert};
use crate::piece_text_resolver::{piece_key, PieceColumn};
use crate::piece_text_staging::{
    ids_where, if_moved, lemma_ids_below, row_change, row_changes, row_insert,
};
use crate::storage::{buffer_table, i64_be, piece_table, Answers, BatchOpView, KeyView, ValueView};

verus! {

// ---------- writes to cells ----------

/// What the writes put in cells of the table of pieces is what the rows of the
/// chain have there, and they leave the endpoints of documents alone.
pub open spec fn puts_rows(writes: Seq<BatchOpView>, list_number: i64, pieces: Seq<Piece>) -> bool {
    &&& forall|i: int, id: i64, column: PieceColumn|
        0 <= i < writes.len() && (#[trigger] writes[i]).key() == #[trigger] piece_key(id, column)
            ==> has_id(pieces, id) && writes[i] == int_put(
            piece_key(id, column),
            cell_of(row_with(list_number, pieces, id), column),
        )
    &&& forall|i: int|
        0 <= i < writes.len() ==> !((#[trigger] writes[i]).key() is PieceHead) && !(
        writes[i].key() is PieceTail)
}

proof fn lemma_puts_concat(a: Seq<BatchOpView>, b: Seq<BatchOpView>, list_number: i64, pieces: Seq<Piece>)
    requires
        puts_rows(a, list_number, pieces),
        puts_rows(b, list_number, pieces),
    ensures
        puts_rows(a + b, list_number, pieces),
{
    let all = a + b;
    assert forall|i: int, id: i64, column: PieceColumn|
        0 <= i < all.len() && (#[trigger] all[i]).key() == #[trigger] piece_key(id, column) implies has_id(
        pieces,
        id,
    ) && all[i] == int_put(
        piece_key(id, column),
        cell_of(row_with(list_number, pieces, id), column),
    ) by {
        if i < a.len() {
            assert(a[i].key() == piece_key(id, column));
        } else {
            assert(b[i - a.len()].key() == piece_key(id, column));
        }
    }
    assert forall|i: int| 0 <= i < all.len() implies !((#[trigger] all[i]).key() is PieceHead) && !(
    all[i].key() is PieceTail) by {
        if i < a.len() {
            assert(all[i] == a[i]);
        } else {
            assert(all[i] == b[i - a.len()]);
        }
    }
}

// ---------- buffers and counters ----------

proof fn lemma_tables_differ()
    ensures
        piece_table() != buffer_table(),
{
    reveal_strlit("_piecetext_pieces");
    reveal_strlit("_piecetext_buffers");
    if piece_table() == buffer_table() {
        assert(piece_table()[11] == buffer_table()[11]);
    }
}

proof fn lemma_buffer_puts(insert: BufferInsertView, address: AddressView, list_number: i64, pieces: Seq<Piece>)
    requires
        buffer_writes(insert, address) is Ok,
    ensures
        puts_rows(buffer_writes(insert, address)->Ok_0, list_number, pieces),
{
    lemma_tables_differ();
    let writes = buffer_writes(insert, address)->Ok_0;
    assert forall|i: int| 0 <= i < writes.len() implies (match (#[trigger] writes[i]).key() {
        KeyView::Column { table, .. } => table == buffer_table(),
        KeyView::Index { .. } => true,
        _ => false,
    }) by {
        assert(0 <= i < 9);
    }
}

proof fn lemma_buffers_puts(inserts: Seq<BufferInsertView>, address: AddressView, list_number: i64, pieces: Seq<Piece>)
    requires
        buffers_writes(inserts, address) is Ok,
    ensures
        puts_rows(buffers_writes(inserts, address)->Ok_0, list_number, pieces),
    decreases inserts.len(),
{
    if inserts.len() > 0 {
        lemma_buffers_puts(inserts.drop_last(), address, list_number, pieces);
        lemma_buffer_puts(inserts.last(), address, list_number, pieces);
        lemma_puts_concat(
            buffers_writes(inserts.drop_last(), address)->Ok_0,
            buffer_writes(inserts.last(), address)->Ok_0,
            list_number,
            pieces,
        );
    }
}

// ---------- new rows ----------

proof fn lemma_piece_puts(row: PieceRow, list_number: i64, pieces: Seq<Piece>)
    requires
        has_id(pieces, row.id),
        row == row_with(list_number, pieces, row.id),
        piece_writes(row_insert(row)) is Ok,
    ensures
        puts_rows(piece_writes(row_insert(row))->Ok_0, list_number, pieces),
        forall|column: PieceColumn|
            writes_to(piece_writes(row_insert(row))->Ok_0, #[trigger] piece_key(row.id, column)),
{
    let writes = piece_writes(row_insert(row))->Ok_0;
    let columns = seq![
        PieceColumn::ListNumber,
        PieceColumn::PrevId,
        PieceColumn::NextId,
        PieceColumn::BufferId,
        PieceColumn::StartByte,
        PieceColumn::LenBytes,
        PieceColumn::Tombstone,
    ];
    assert(writes.len() == 9);
    assert forall|i: int| 0 <= i < 7 implies (#[trigger] writes[i]) == int_put(
        piece_key(row.id, columns[i]),
        cell_of(row, columns[i]),
    ) by {}
    assert forall|i: int, id: i64, column: PieceColumn|
        0 <= i < writes.len() && (#[trigger] writes[i]).key() == #[trigger] piece_key(id, column) implies has_id(
        pieces,
        id,
    ) && writes[i] == int_put(
        piece_key(id, column),
        cell_of(row_with(list_number, pieces, id), column),
    ) by {
        if i < 7 {
            lemma_piece_keys(row.id, columns[i], id, column);
        }
    }
    assert forall|column: PieceColumn| writes_to(writes, #[trigger] piece_key(row.id, column)) by {
        let i: int = match column {
            PieceColumn::ListNumber => 0,
            PieceColumn::PrevId => 1,
            PieceColumn::NextId => 2,
            PieceColumn::BufferId => 3,
            PieceColumn::StartByte => 4,
            PieceColumn::LenBytes => 5,
            PieceColumn::Tombstone => 6,
        };
        assert(columns[i] == column);
        assert(writes[i].key() == piece_key(row.id, column));
    }
}

/// The rows with these ids, as new rows.
spec fn inserts_of(list_number: i64, pieces: Seq<Piece>, ids: Seq<i64>) -> Seq<PieceRowInsert> {
    ids.map_values(|id: i64| row_insert(row_with(list_number, pieces, id)))
}

pub proof fn lemma_row_with_id(list_number: i64, pieces: Seq<Piece>, id: i64)
    requires
        has_id(pieces, id),
    ensures
        row_with(list_number, pieces, id).id == id,
        row_with(list_number, pieces, id).list_number == list_number,
{
}

proof fn lemma_pieces_puts(list_number: i64, pieces: Seq<Piece>, ids: Seq<i64>)
    requires
        forall|k: int| 0 <= k < ids.len() ==> has_id(pieces, #[trigger] ids[k]),
        pieces_writes(inserts_of(list_number, pieces, ids)) is Ok,
    ensures
        ({
            let writes = pieces_writes(inserts_of(list_number, pieces, ids))->Ok_0;
            &&& puts_rows(writes, list_number, pieces)
            &&& forall|k: int, column: PieceColumn|
                0 <= k < ids.len() ==> writes_to(writes, #[trigger] piece_key(ids[k], column))
        }),
    decreases ids.len(),
{
    let inserts = inserts_of(list_number, pieces, ids);
    if ids.len() > 0 {
        let rest = ids.drop_last();
        assert(inserts.drop_last() =~= inserts_of(list_number, pieces, rest));
        assert forall|k: int| 0 <= k < rest.len() implies has_id(pieces, #[trigger] rest[k]) by {
            assert(rest[k] == ids[k]);
        }
        lemma_pieces_puts(list_number, pieces, rest);
        let id = ids.last();
        assert(has_id(pieces, ids[ids.len() - 1]));
        lemma_row_with_id(list_number, pieces, id);
        let row = row_with(list_number, pieces, id);
        assert(inserts.last() == row_insert(row));
        lemma_piece_puts(row, list_number, pieces);
        let a = pieces_writes(inserts.drop_last())->Ok_0;
        let b = piece_writes(row_insert(row))->Ok_0;
        lemma_puts_concat(a, b, list_number, pieces);
        assert forall|k: int, column: PieceColumn| 0 <= k < ids.len() implies writes_to(
            a + b,
            #[trigger] piece_key(ids[k], column),
        ) by {
            lemma_writes_to_concat(a, b, piece_key(ids[k], column));
            if k < rest.len() {
                assert(writes_to(a, piece_key(rest[k], column)));
            } else {
                assert(writes_to(b, piece_key(row.id, column)));
            }
        }
    }
}

// ---------- changed rows ----------

proof fn lemma_update_puts(
    from: PieceRow,
    to: PieceRow,
    originals: Map<i64, PieceCoord>,
    list_number: i64,
    pieces: Seq<Piece>,
)
    requires
        row_change(from, to) is Some,
        from.id == to.id,
        from.list_number == to.list_number,
        has_id(pieces, to.id),
        to == row_with(list_number, pieces, to.id),
        originals.contains_key(to.id) ==> originals[to.id] == from.coord,
        update_writes(row_change(from, to)->Some_0, originals) is Ok,
    ensures
        ({
            let writes = update_writes(row_change(from, to)->Some_0, originals)->Ok_0;
            &&& puts_rows(writes, list_number, pieces)
            &&& forall|column: PieceColumn|
                cell_of(from, column) != cell_of(to, column) ==> writes_to(
                    writes,
                    #[trigger] piece_key(to.id, column),
                )
        }),
{
    let update = row_change(from, to)->Some_0;
    let id = to.id;
    let prev = match update.prev_id {
        Some(prev_id) => seq![int_put(piece_key(id, PieceColumn::PrevId), prev_id)],
        None => Seq::empty(),
    };
    let next = match update.next_id {
        Some(next_id) => seq![int_put(piece_key(id, PieceColumn::NextId), next_id)],
        None => Seq::empty(),
    };
    let range = match update.coord {
        Some(coord) => coord_writes(id, coord, originals)->Ok_0,
        None => Seq::empty(),
    };
    lemma_cell_puts(prev, PieceColumn::PrevId, to, list_number, pieces);
    lemma_cell_puts(next, PieceColumn::NextId, to, list_number, pieces);
    lemma_puts_concat(prev, next, list_number, pieces);
    if update.coord is Some {
        let len = seq![int_put(piece_key(id, PieceColumn::LenBytes), to.coord.len_bytes as i64)];
        let mark = seq![
            int_put(piece_key(id, PieceColumn::Tombstone), tombstone_value(to.coord.tombstone)),
        ];
        lemma_cell_puts(len, PieceColumn::LenBytes, to, list_number, pieces);
        lemma_cell_puts(mark, PieceColumn::Tombstone, to, list_number, pieces);
        lemma_puts_concat(len, mark, list_number, pieces);
        assert(range =~= len + mark);
        lemma_writes_to_concat(len, mark, piece_key(id, PieceColumn::LenBytes));
        lemma_writes_to_concat(len, mark, piece_key(id, PieceColumn::Tombstone));
        assert(len[0].key() == piece_key(id, PieceColumn::LenBytes));
        assert(mark[0].key() == piece_key(id, PieceColumn::Tombstone));
    }
    lemma_puts_concat(prev + next, range, list_number, pieces);
    let writes = update_writes(update, originals)->Ok_0;
    assert(writes =~= prev + next + range);
    assert forall|column: PieceColumn| cell_of(from, column) != cell_of(to, column) implies writes_to(
        writes,
        #[trigger] piece_key(id, column),
    ) by {
        let key = piece_key(id, column);
        lemma_writes_to_concat(prev + next, range, key);
        lemma_writes_to_concat(prev, next, key);
        if column == PieceColumn::PrevId {
            assert(prev[0].key() == key);
        }
        if column == PieceColumn::NextId {
            assert(next[0].key() == key);
        }
    }
}

/// At most one put, of what a row has in a column.
proof fn lemma_cell_puts(
    writes: Seq<BatchOpView>,
    column: PieceColumn,
    row: PieceRow,
    list_number: i64,
    pieces: Seq<Piece>,
)
    requires
        has_id(pieces, row.id),
        row == row_with(list_number, pieces, row.id),
        forall|i: int|
            0 <= i < writes.len() ==> (#[trigger] writes[i]) == int_put(
                piece_key(row.id, column),
                cell_of(row, column),
            ),
    ensures
        puts_rows(writes, list_number, pieces),
{
    assert forall|i: int, id: i64, other: PieceColumn|
        0 <= i < writes.len() && (#[trigger] writes[i]).key() == #[trigger] piece_key(id, other) implies has_id(
        pieces,
        id,
    ) && writes[i] == int_put(
        piece_key(id, other),
        cell_of(row_with(list_number, pieces, id), other),
    ) by {
        lemma_piece_keys(row.id, column, id, other);
    }
}

/// The rows with these ids, before and after.
spec fn pairs_of(list_number: i64, from: Seq<Piece>, to: Seq<Piece>, ids: Seq<i64>) -> Seq<
    (PieceRow, PieceRow),
> {
    ids.map_values(|id: i64| (row_with(list_number, from, id), row_with(list_number, to, id)))
}

proof fn lemma_updates_puts(
    list_number: i64,
    from: Seq<Piece>,
    to: Seq<Piece>,
    ids: Seq<i64>,
    originals: Map<i64, PieceCoord>,
)
    requires
        forall|k: int| 0 <= k < ids.len() ==> has_id(from, #[trigger] ids[k]) && has_id(to, ids[k]),
        forall|id: i64| #[trigger] originals.contains_key(id) ==> originals[id] == row_with(
            list_number,
            from,
            id,
        ).coord,
        updates_writes(row_changes(pairs_of(list_number, from, to, ids)), originals) is Ok,
    ensures
        ({
            let writes = updates_writes(
                row_changes(pairs_of(list_number, from, to, ids)),
                originals,
            )->Ok_0;
            &&& puts_rows(writes, list_number, to)
            &&& forall|k: int, column: PieceColumn|
                0 <= k < ids.len() && cell_of(row_with(list_number, from, ids[k]), column) != cell_of(
                    row_with(list_number, to, ids[k]),
                    column,
                ) ==> writes_to(writes, #[trigger] piece_key(ids[k], column))
        }),
    decreases ids.len(),
{
    let pairs = pairs_of(list_number, from, to, ids);
    if ids.len() > 0 {
        let rest = ids.drop_last();
        let id = ids.last();
        assert(pairs.drop_last() =~= pairs_of(list_number, from, to, rest));
        assert forall|k: int| 0 <= k < rest.len() implies has_id(from, #[trigger] rest[k]) && has_id(
            to,
            rest[k],
        ) by {
            assert(rest[k] == ids[k]);
        }
        assert(has_id(from, ids[ids.len() - 1]));
        let a = row_with(list_number, from, id);
        let b = row_with(list_number, to, id);
        lemma_row_with_id(list_number, from, id);
        lemma_row_with_id(list_number, to, id);
        assert(pairs.last() == (a, b));
        let changes = row_changes(pairs);
        let earlier = row_changes(pairs.drop_last());
        if row_change(a, b) is Some {
            assert(changes.drop_last() =~= earlier);
        }
        lemma_updates_puts(list_number, from, to, rest, originals);
        let before = updates_writes(earlier, originals)->Ok_0;
        let last = if row_change(a, b) is Some {
            lemma_update_puts(a, b, originals, list_number, to);
            update_writes(row_change(a, b)->Some_0, originals)->Ok_0
        } else {
            Seq::empty()
        };
        lemma_puts_concat(before, last, list_number, to);
        let writes = updates_writes(changes, originals)->Ok_0;
        assert(writes =~= before + last);
        assert forall|k: int, column: PieceColumn|
            0 <= k < ids.len() && cell_of(row_with(list_number, from, ids[k]), column) != cell_of(
                row_with(list_number, to, ids[k]),
                column,
            ) implies writes_to(writes, #[trigger] piece_key(ids[k], column)) by {
            lemma_writes_to_concat(before, last, piece_key(ids[k], column));
            if k < rest.len() {
                assert(rest[k] == ids[k]);
                assert(writes_to(before, piece_key(rest[k], column)));
            } else {
                assert(writes_to(last, piece_key(b.id, column)));
            }
        }
    }
}

// ---------- the document ----------

pub proof fn lemma_row_in_place(list_number: i64, pieces: Seq<Piece>, i: int)
    requires
        distinct(pieces),
        0 <= i < pieces.len(),
    ensures
        has_id(pieces, pieces[i].id),
        row_with(list_number, pieces, pieces[i].id) == row_in(list_number, pieces, i),
{
    let id = pieces[i].id;
    let j = choose|j: int| 0 <= j < pieces.len() && (#[trigger] pieces[j]).id == id;
    if i != j {
        assert(pieces[i].id != pieces[j].id);
    }
}

/// The writes of an edit but for those of endpoints.
pub open spec fn row_writes(
    address: AddressView,
    output: OutputView,
    originals: Map<i64, PieceCoord>,
) -> Seq<BatchOpView> {
    buffers_writes(output.buffer_inserts, address)->Ok_0 + next_id_writes(
        buffer_table(),
        output.buffers_next_id_post,
    ) + pieces_writes(output.piece_inserts)->Ok_0 + updates_writes(
        output.piece_updates,
        originals,
    )->Ok_0 + next_id_writes(piece_table(), output.piece_next_id_post)
}

/// The writes to rows make the rows of the chain after the edit.
pub proof fn lemma_row_writes(
    address: AddressView,
    list_number: i64,
    c: ChainState,
    after: ChainState,
    output: OutputView,
    originals: Map<i64, PieceCoord>,
)
    requires
        edit_writes(address, list_number, output, originals) is Ok,
        same_writes(output, chain_writes(list_number, c, after, output.buffer_inserts)),
        distinct(c.pieces),
        c.next_piece_id <= after.next_piece_id,
        forall|id: i64| #[trigger]
            has_id(after.pieces, id) <==> has_id(c.pieces, id) || c.next_piece_id <= id
                < after.next_piece_id,
        forall|id: i64| #[trigger] originals.contains_key(id) ==> originals[id] == row_with(
            list_number,
            c.pieces,
            id,
        ).coord,
    ensures
        puts_rows(row_writes(address, output, originals), list_number, after.pieces),
        forall|id: i64, column: PieceColumn|
            has_id(after.pieces, id) && (!has_id(c.pieces, id) || cell_of(
                row_with(list_number, c.pieces, id),
                column,
            ) != cell_of(row_with(list_number, after.pieces, id), column)) ==> writes_to(
                row_writes(address, output, originals),
                #[trigger] piece_key(id, column),
            ),
{
    let pieces = after.pieces;
    let buffers = buffers_writes(output.buffer_inserts, address)->Ok_0;
    let next_buffer = next_id_writes(buffer_table(), output.buffers_next_id_post);
    let fresh = fresh_ids(c.next_piece_id as int, after.next_piece_id as int);
    let known = |id: i64| has_id(c.pieces, id);
    let ids = ids_where(known);
    lemma_ids_below(known, i64::MAX + 1);
    let rows = pieces_writes(output.piece_inserts)->Ok_0;
    let updates = updates_writes(output.piece_updates, originals)->Ok_0;
    let next_piece = next_id_writes(piece_table(), output.piece_next_id_post);
    lemma_buffers_puts(output.buffer_inserts, address, list_number, pieces);
    assert(output.piece_inserts =~= inserts_of(list_number, pieces, fresh));
    assert forall|k: int| 0 <= k < fresh.len() implies has_id(pieces, #[trigger] fresh[k]) by {
        assert(c.next_piece_id <= fresh[k] < after.next_piece_id);
    }
    lemma_pieces_puts(list_number, pieces, fresh);
    assert(output.piece_updates == row_changes(pairs_of(list_number, c.pieces, pieces, ids)));
    assert forall|k: int| 0 <= k < ids.len() implies has_id(c.pieces, #[trigger] ids[k]) && has_id(
        pieces,
        ids[k],
    ) by {
        assert(known(ids[k]));
    }
    lemma_updates_puts(list_number, c.pieces, pieces, ids, originals);
    assert(puts_rows(next_buffer, list_number, pieces));
    assert(puts_rows(next_piece, list_number, pieces));
    lemma_puts_concat(buffers, next_buffer, list_number, pieces);
    lemma_puts_concat(buffers + next_buffer, rows, list_number, pieces);
    lemma_puts_concat(buffers + next_buffer + rows, updates, list_number, pieces);
    lemma_puts_concat(buffers + next_buffer + rows + updates, next_piece, list_number, pieces);
    let all = row_writes(address, output, originals);
    assert forall|id: i64, column: PieceColumn|
        has_id(pieces, id) && (!has_id(c.pieces, id) || cell_of(
            row_with(list_number, c.pieces, id),
            column,
        ) != cell_of(row_with(list_number, pieces, id), column)) implies writes_to(
        all,
        #[trigger] piece_key(id, column),
    ) by {
        let key = piece_key(id, column);
        lemma_writes_to_concat(buffers + next_buffer + rows + updates, next_piece, key);
        lemma_writes_to_concat(buffers + next_buffer + rows, updates, key);
        lemma_writes_to_concat(buffers + next_buffer, rows, key);
        if has_id(c.pieces, id) {
            let i = choose|i: int| 0 <= i < c.pieces.len() && (#[trigger] c.pieces[i]).id == id;
            assert(c.pieces[i].id > 0);
            assert(known(id));
            assert(ids.contains(id));
            let k = choose|k: int| 0 <= k < ids.len() && ids[k] == id;
            assert(writes_to(updates, piece_key(ids[k], column)));
        } else {
            assert(fresh[id - c.next_piece_id] == id);
            assert(writes_to(rows, piece_key(fresh[id - c.next_piece_id], column)));
        }
    }
}

/// The tree after the writes of an edit.
proof fn lemma_edit_stores(
    tree: Tree,
    address: AddressView,
    list_number: i64,
    c: ChainState,
    after: ChainState,
    output: OutputView,
    originals: Map<i64, PieceCoord>,
)
    requires
        stores(tree, list_number, c.pieces),
        edit_writes(address, list_number, output, originals) is Ok,
        same_writes(output, chain_writes(list_number, c, after, output.buffer_inserts)),
        distinct(c.pieces),
        distinct(after.pieces),
        c.next_piece_id <= after.next_piece_id,
        forall|id: i64| #[trigger]
            has_id(after.pieces, id) <==> has_id(c.pieces, id) || c.next_piece_id <= id
                < after.next_piece_id,
        forall|id: i64| #[trigger] originals.contains_key(id) ==> originals[id] == row_with(
            list_number,
            c.pieces,
            id,
        ).coord,
    ensures
        stores(
            written(tree, edit_writes(address, list_number, output, originals)->Ok_0),
            list_number,
            after.pieces,
        ),
{
    let pieces = after.pieces;
    let main = row_writes(address, output, originals);
    let head_key = KeyView::PieceHead { list_number };
    let tail_key = KeyView::PieceTail { list_number };
    let head = endpoint_writes(head_key, output.head_update);
    let tail = endpoint_writes(tail_key, output.tail_update);
    let writes = edit_writes(address, list_number, output, originals)->Ok_0;
    assert(writes =~= main + head + tail);
    let end = written(tree, writes);
    lemma_row_writes(address, list_number, c, after, output, originals);
    // Cells.
    assert forall|id: i64, column: PieceColumn| writes_to(writes, #[trigger] piece_key(id, column))
        == writes_to(main, piece_key(id, column)) by {
        lemma_writes_to_concat(main + head, tail, piece_key(id, column));
        lemma_writes_to_concat(main, head, piece_key(id, column));
    }
    assert forall|id: i64, column: PieceColumn|
        writes_to(main, #[trigger] piece_key(id, column)) implies has_id(pieces, id) && holds(
        end,
        piece_key(id, column),
        ValueView::Int(cell_of(row_with(list_number, pieces, id), column)),
    ) by {
        let key = piece_key(id, column);
        let i = choose|i: int| 0 <= i < main.len() && (#[trigger] main[i]).key() == key;
        assert(main[i].key() == key);
        let value = ValueView::Int(cell_of(row_with(list_number, pieces, id), column));
        assert forall|j: int| 0 <= j < writes.len() && (#[trigger] writes[j]).key() == key implies writes[j]
            == (BatchOpView::Put { key, value }) by {
            if j < main.len() {
                assert(writes[j] == main[j]);
            } else if j < main.len() + head.len() {
                assert(writes[j] == head[j - main.len()]);
            } else {
                assert(writes[j] == tail[j - main.len() - head.len()]);
            }
        }
        lemma_put_value(tree, writes, key, value);
    }
    assert forall|i: int| 0 <= i < pieces.len() implies has_row(
        end,
        #[trigger] row_in(list_number, pieces, i),
    ) by {
        let row = row_in(list_number, pieces, i);
        let id = row.id;
        lemma_row_in_place(list_number, pieces, i);
        assert forall|column: PieceColumn| #[trigger] holds(
            end,
            piece_key(id, column),
            ValueView::Int(cell_of(row, column)),
        ) by {
            let key = piece_key(id, column);
            if !writes_to(main, key) {
                lemma_unwritten(tree, writes, key);
                assert(has_id(c.pieces, id));
                let k = choose|k: int| 0 <= k < c.pieces.len() && (#[trigger] c.pieces[k]).id == id;
                lemma_row_in_place(list_number, c.pieces, k);
                let was = row_in(list_number, c.pieces, k);
                assert(has_row(tree, was));
                assert(holds(tree, piece_key(was.id, column), ValueView::Int(cell_of(was, column))));
            }
        }
    }
    assert forall|id: i64| #[trigger] holds(
        end,
        piece_key(id, PieceColumn::ListNumber),
        ValueView::Int(list_number),
    ) implies has_id(pieces, id) by {
        let key = piece_key(id, PieceColumn::ListNumber);
        if !writes_to(main, key) {
            lemma_unwritten(tree, writes, key);
            assert(holds(tree, key, ValueView::Int(list_number)));
        }
    }
    // Endpoints.
    lemma_endpoint(
        tree,
        writes,
        head_key,
        output.head_update,
        id_at(c.pieces, 0),
        id_at(pieces, 0),
        main.len() as int,
    );
    lemma_endpoint(
        tree,
        writes,
        tail_key,
        output.tail_update,
        id_at(c.pieces, c.pieces.len() - 1),
        id_at(pieces, pieces.len() - 1),
        (main.len() + head.len()) as int,
    );
}

/// An endpoint that is written where it has moved.
proof fn lemma_endpoint(
    tree: Tree,
    writes: Seq<BatchOpView>,
    key: KeyView,
    update: Option<i64>,
    from: i64,
    to: i64,
    at: int,
)
    requires
        holds(tree, key, ValueView::Raw(i64_be(from))),
        update == if_moved(from, to),
        forall|i: int|
            0 <= i < writes.len() && (#[trigger] writes[i]).key() == key ==> update is Some && i == at,
        update is Some ==> 0 <= at < writes.len() && writes[at] == raw_int_put(key, to),
    ensures
        holds(written(tree, writes), key, ValueView::Raw(i64_be(to))),
{
    if update is Some {
        assert(writes[at].key() == key);
        lemma_put_value(tree, writes, key, ValueView::Raw(i64_be(to)));
    } else {
        lemma_unwritten(tree, writes, key);
    }
}

// ---------- the operation ----------

proof fn lemma_coords_by_id(coords: Seq<(i64, PieceCoord)>, id: i64) -> (k: int)
    requires
        coords_by_id(coords).contains_key(id),
    ensures
        0 <= k < coords.len(),
        coords[k] == (id, coords_by_id(coords)[id]),
    decreases coords.len(),
{
    if coords.last().0 == id {
        coords.len() - 1
    } else {
        lemma_coords_by_id(coords.drop_last(), id)
    }
}

/// Operations that insert nothing do not look at the counter of buffers.
pub proof fn lemma_deletes_only(state: EditState, c: ChainState, next: i64, ops: Seq<PieceTextEditItemManifest>)
    requires
        insert_total(ops) == 0,
    ensures
        ({
            let other = EditState {
                rest: OverlayRest { next_buffer_id: next, ..state.rest },
                ..state
            };
            let (a, r) = state.steps(ops);
            let (b, s) = other.steps(ops);
            &&& r == s
            &&& b == (EditState { rest: OverlayRest { next_buffer_id: next, ..a.rest }, ..a })
            &&& a.rest == state.rest
        }),
        (ChainState { next_buffer_id: next, ..c }).steps(ops) == (match c.steps(ops) {
            Some(after) => Some(ChainState { next_buffer_id: next, ..after }),
            None => None,
        }),
        c.steps(ops) matches Some(after) ==> after.next_buffer_id == c.next_buffer_id,
    decreases ops.len(),
{
    reveal(EditState::step);
    if ops.len() > 0 {
        lemma_deletes_only(state, c, next, ops.drop_last());
    }
}

/// The state of the chain of a document that an edit starts from.
pub open spec fn chain_of(target: EditTarget, pieces: Seq<Piece>) -> ChainState {
    ChainState {
        pieces,
        next_piece_id: target.next_piece_id,
        next_buffer_id: target.next_buffer_id,
        allocated: Set::empty(),
    }
}

/// The document that an edit starts from is well formed: its rows are those of
/// the chain, and new buffers get ids that none of them refers to.
pub open spec fn well_formed(
    answers: Answers,
    target: EditTarget,
    ops: Seq<PieceTextEditItemManifest>,
    pieces: Seq<Piece>,
) -> bool {
    let doc = edit_doc(
        answers,
        target.list_number,
        target.head_id,
        target.tail_id,
        target.next_piece_id,
    );
    &&& is_chain(doc, pieces)
    &&& has_no_others(doc, pieces)
    &&& insert_total(ops) > 0 ==> target.next_buffer_id > 0 && forall|i: int|
        0 <= i < pieces.len() ==> (#[trigger] pieces[i]).coord.buffer_id < target.next_buffer_id
    &&& forall|i: int| 0 <= i < pieces.len() ==> (#[trigger] pieces[i]).coord.buffer_id < i64::MAX
}

/// The output of an edit that goes through.
pub proof fn lemma_edited(
    answers: Answers,
    target: EditTarget,
    envelope: EnvelopeView,
    author_id: i64,
    pieces: Seq<Piece>,
)
    requires
        edited(answers, target, envelope, author_id) is Ok,
        well_formed(answers, target, envelope.ops, pieces),
        chain_of(target, pieces).has_room_for(envelope.ops.len() as int),
    ensures
        ({
            let c = chain_of(target, pieces);
            let output = edited(answers, target, envelope, author_id)->Ok_0.output();
            let originals = coords_by_id(output.trace.rows);
            &&& c.steps(envelope.ops) matches Some(after)
            &&& same_writes(output, chain_writes(target.list_number, c, after, output.buffer_inserts))
            &&& distinct(pieces)
            &&& distinct(after.pieces)
            &&& c.next_piece_id <= after.next_piece_id
            &&& forall|id: i64| #[trigger]
                has_id(after.pieces, id) <==> has_id(pieces, id) || c.next_piece_id <= id
                    < after.next_piece_id
            &&& forall|id: i64| #[trigger] originals.contains_key(id) ==> originals[id] == row_with(
                target.list_number,
                pieces,
                id,
            ).coord
        }),
{
    let ops = envelope.ops;
    let c = chain_of(target, pieces);
    let start = start_state(
        answers,
        envelope.address,
        target.list_number,
        author_id,
        target.head_id,
        target.tail_id,
        target.next_piece_id,
        target.next_buffer_id,
    );
    let next = if insert_total(ops) > 0 {
        target.next_buffer_id
    } else {
        i64::MAX
    };
    let d = ChainState { next_buffer_id: next, ..c };
    let state = EditState { rest: OverlayRest { next_buffer_id: next, ..start.rest }, ..start };
    if insert_total(ops) == 0 {
        lemma_deletes_only(start, c, next, ops);
    } else {
        assert(d == c && state == start);
    }
    assert(is_state(state.doc, d));
    assert(edit_is_at(state, d));
    law_edit_steps(state, d, ops);
    let after = d.steps(ops)->Some_0;
    law_edit_writes(state, d, ops);
    lemma_edit_ids(state, d, ops);
    let output = start.steps(ops).0.output();
    assert(output.trace.rows == state.steps(ops).0.doc.found_coords());
    let originals = coords_by_id(output.trace.rows);
    assert forall|id: i64| #[trigger] originals.contains_key(id) implies originals[id] == row_with(
        target.list_number,
        pieces,
        id,
    ).coord by {
        let k = lemma_coords_by_id(output.trace.rows, id);
        assert(output.trace.rows[k].0 == id);
    }
}

/// An entry that asks for an edit, and is accepted, leads to a tree that stores
/// the document with the chain that the operations of its envelope lead to.
pub proof fn law_edit_operation(
    answers: Answers,
    checks: EditChecks,
    entry: ChangelogEntry,
    tree: Tree,
    pieces: Seq<Piece>,
)
    requires
        edit_operation(answers, checks, entry) is Ok,
        ({
            let envelope = decode_message(entry.message@)->Ok_0;
            let target = edit_target(answers, checks, envelope)->Ok_0;
            &&& well_formed(answers, target, envelope.ops, pieces)
            &&& stores(tree, target.list_number, pieces)
            &&& chain_of(target, pieces).has_room_for(envelope.ops.len() as int)
        }),
    ensures
        ({
            let envelope = decode_message(entry.message@)->Ok_0;
            let target = edit_target(answers, checks, envelope)->Ok_0;
            let writes = edit_operation(answers, checks, entry)->Ok_0.0;
            &&& chain_of(target, pieces).steps(envelope.ops) matches Some(after)
            &&& stores(written(tree, writes), target.list_number, after.pieces)
        }),
{
    let envelope = decode_message(entry.message@)->Ok_0;
    let target = edit_target(answers, checks, envelope)->Ok_0;
    let state = edited(answers, target, envelope, entry.uid as i64)->Ok_0;
    let output = state.output();
    lemma_edited(answers, target, envelope, entry.uid as i64, pieces);
    let c = chain_of(target, pieces);
    lemma_edit_stores(
        tree,
        envelope.address,
        target.list_number,
        c,
        c.steps(envelope.ops)->Some_0,
        output,
        coords_by_id(output.trace.rows),
    );
}

} // verus!
