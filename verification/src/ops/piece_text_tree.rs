//! Trees that store the rows of a document, and what writes do to them.

use vstd::prelude::*;

use crate::ops::piece_text_edit_op::tombstone_value;
use crate::piece_text::PieceCoord;
use crate::piece_text_chain::{id_at, row_in, whole, Piece};
use crate::piece_text_edit_writes::has_id;
use crate::piece_text_planner::PieceRow;
use crate::piece_text_resolver::{
    int_column, piece_coord, piece_key, piece_row, u32_column, PieceColumn,
};
use crate::storage::{i64_be, Answers, BatchOpView, KeyView, ReadOpView, ValueView};

verus! {

/// What the tree holds under its keys.
pub type Tree = Map<KeyView, ValueView>;

/// The tree after one write.
pub open spec fn after_write(tree: Tree, op: BatchOpView) -> Tree {
    match op {
        BatchOpView::Put { key, value } => tree.insert(key, value),
        BatchOpView::Delete { key } => tree.remove(key),
    }
}

/// The tree after writes, in their order.
pub open spec fn written(tree: Tree, writes: Seq<BatchOpView>) -> Tree
    decreases writes.len(),
{
    if writes.len() == 0 {
        tree
    } else {
        after_write(written(tree, writes.drop_last()), writes.last())
    }
}

/// The reader answers reads of keys from the tree.
pub open spec fn reads_tree(answers: Answers, tree: Tree) -> bool {
    forall|key: KeyView| #[trigger]
        answers(ReadOpView::Key(key)) == Ok::<
            Seq<(KeyView, ValueView)>,
            crate::changelog::ChangelogError,
        >(
            if tree.contains_key(key) {
                seq![(key, tree[key])]
            } else {
                Seq::empty()
            },
        )
}

/// What a row has in a column.
pub open spec fn cell_of(row: PieceRow, column: PieceColumn) -> i64 {
    match column {
        PieceColumn::ListNumber => row.list_number,
        PieceColumn::PrevId => row.prev_id,
        PieceColumn::NextId => row.next_id,
        PieceColumn::BufferId => row.coord.buffer_id,
        PieceColumn::StartByte => row.coord.start_byte as i64,
        PieceColumn::LenBytes => row.coord.len_bytes as i64,
        PieceColumn::Tombstone => tombstone_value(row.coord.tombstone),
    }
}

/// The key holds the value.
pub open spec fn holds(tree: Tree, key: KeyView, value: ValueView) -> bool {
    tree.contains_key(key) && tree[key] == value
}

/// The tree has all cells of the row.
pub open spec fn has_row(tree: Tree, row: PieceRow) -> bool {
    forall|column: PieceColumn| #[trigger]
        holds(tree, piece_key(row.id, column), ValueView::Int(cell_of(row, column)))
}

/// The tree has no cell of a row with the id.
pub open spec fn lacks_row(tree: Tree, id: i64) -> bool {
    forall|column: PieceColumn| !#[trigger] tree.contains_key(piece_key(id, column))
}

/// The tree has the rows and the endpoints of a document with these pieces, and
/// no other rows of its list.
pub open spec fn stores(tree: Tree, list_number: i64, pieces: Seq<Piece>) -> bool {
    &&& holds(tree, KeyView::PieceHead { list_number }, ValueView::Raw(i64_be(id_at(pieces, 0))))
    &&& holds(
        tree,
        KeyView::PieceTail { list_number },
        ValueView::Raw(i64_be(id_at(pieces, pieces.len() - 1))),
    )
    &&& forall|i: int|
        0 <= i < pieces.len() ==> has_row(tree, #[trigger] row_in(list_number, pieces, i))
    &&& forall|id: i64| #[trigger]
        holds(tree, piece_key(id, PieceColumn::ListNumber), ValueView::Int(list_number)) ==> has_id(
            pieces,
            id,
        )
}

// ---------- keys ----------

/// Cells of different rows or columns have different keys.
pub proof fn lemma_piece_keys(i: i64, c: PieceColumn, j: i64, d: PieceColumn)
    ensures
        (piece_key(i, c) == piece_key(j, d)) == (i == j && c == d),
{
    reveal_strlit("list_number");
    reveal_strlit("prev_id");
    reveal_strlit("next_id");
    reveal_strlit("buffer_id");
    reveal_strlit("start_byte");
    reveal_strlit("len_bytes");
    reveal_strlit("tombstone");
    if c != d {
        let a = c.name()@;
        let b = d.name()@;
        if a.len() == b.len() {
            assert(a[0] != b[0]);
        }
    }
}

// ---------- writes ----------

pub proof fn lemma_written_then(tree: Tree, a: Seq<BatchOpView>, b: Seq<BatchOpView>)
    ensures
        written(tree, a + b) == written(written(tree, a), b),
    decreases b.len(),
{
    if b.len() == 0 {
        assert(a + b =~= a);
    } else {
        assert((a + b).drop_last() =~= a + b.drop_last());
        lemma_written_then(tree, a, b.drop_last());
    }
}

/// Two trees have the same under a key.
pub open spec fn same_at(a: Tree, b: Tree, key: KeyView) -> bool {
    a.contains_key(key) == b.contains_key(key) && (a.contains_key(key) ==> a[key] == b[key])
}

/// One of the writes is to the key.
pub open spec fn writes_to(writes: Seq<BatchOpView>, key: KeyView) -> bool {
    exists|i: int| 0 <= i < writes.len() && (#[trigger] writes[i]).key() == key
}

/// What is not written stays.
pub proof fn lemma_unwritten(tree: Tree, writes: Seq<BatchOpView>, key: KeyView)
    requires
        !writes_to(writes, key),
    ensures
        same_at(tree, written(tree, writes), key),
    decreases writes.len(),
{
    if writes.len() > 0 {
        let rest = writes.drop_last();
        assert(!writes_to(rest, key)) by {
            if writes_to(rest, key) {
                let i = choose|i: int| 0 <= i < rest.len() && (#[trigger] rest[i]).key() == key;
                assert(writes[i] == rest[i]);
            }
        }
        lemma_unwritten(tree, rest, key);
        assert(writes[writes.len() - 1].key() != key);
    }
}

/// What only deletes are made of is gone.
pub proof fn lemma_deleted(tree: Tree, writes: Seq<BatchOpView>, key: KeyView)
    requires
        forall|i: int| 0 <= i < writes.len() ==> (#[trigger] writes[i]) is Delete,
        writes_to(writes, key),
    ensures
        !written(tree, writes).contains_key(key),
    decreases writes.len(),
{
    let rest = writes.drop_last();
    assert(writes[writes.len() - 1] is Delete);
    if writes.last().key() != key {
        let i = choose|i: int| 0 <= i < writes.len() && (#[trigger] writes[i]).key() == key;
        assert(rest[i] == writes[i]);
        assert forall|j: int| 0 <= j < rest.len() implies (#[trigger] rest[j]) is Delete by {
            assert(rest[j] == writes[j]);
        }
        lemma_deleted(tree, rest, key);
    }
}

/// A key that is only ever given one value has it.
pub proof fn lemma_put_value(tree: Tree, writes: Seq<BatchOpView>, key: KeyView, value: ValueView)
    requires
        writes_to(writes, key),
        forall|i: int|
            0 <= i < writes.len() && (#[trigger] writes[i]).key() == key ==> writes[i] == (
            BatchOpView::Put { key, value }),
    ensures
        holds(written(tree, writes), key, value),
    decreases writes.len(),
{
    let rest = writes.drop_last();
    if writes.last().key() == key {
        assert(writes[writes.len() - 1] == writes.last());
    } else {
        let i = choose|i: int| 0 <= i < writes.len() && (#[trigger] writes[i]).key() == key;
        assert(rest[i] == writes[i]);
        assert forall|j: int| 0 <= j < rest.len() && (#[trigger] rest[j]).key() == key implies rest[j]
            == (BatchOpView::Put { key, value }) by {
            assert(rest[j] == writes[j]);
        }
        lemma_put_value(tree, rest, key, value);
    }
}

/// Writes and then others are to the keys of both.
pub proof fn lemma_writes_to_concat(a: Seq<BatchOpView>, b: Seq<BatchOpView>, key: KeyView)
    ensures
        writes_to(a + b, key) == (writes_to(a, key) || writes_to(b, key)),
{
    let all = a + b;
    if writes_to(a, key) {
        let i = choose|i: int| 0 <= i < a.len() && (#[trigger] a[i]).key() == key;
        assert(all[i].key() == key);
    }
    if writes_to(b, key) {
        let i = choose|i: int| 0 <= i < b.len() && (#[trigger] b[i]).key() == key;
        assert(all[a.len() + i].key() == key);
    }
    if writes_to(all, key) {
        let i = choose|i: int| 0 <= i < all.len() && (#[trigger] all[i]).key() == key;
        if i < a.len() {
            assert(a[i].key() == key);
        } else {
            assert(b[i - a.len()].key() == key);
        }
    }
}

// ---------- reads ----------

/// A row whose cells a tree holds is read back as it is.
pub proof fn law_row_is_read_back(answers: Answers, tree: Tree, row: PieceRow)
    requires
        reads_tree(answers, tree),
        has_row(tree, row),
        row.id > 0,
        whole(row.coord),
    ensures
        piece_row(answers, row.id) == Ok::<PieceRow, crate::changelog::ChangelogError>(row),
{
    assert forall|column: PieceColumn| #[trigger] int_column(answers, row.id, column) == Ok::<
        i64,
        crate::changelog::ChangelogError,
    >(cell_of(row, column)) by {
        let key = piece_key(row.id, column);
        assert(holds(tree, key, ValueView::Int(cell_of(row, column))));
        assert(answers(ReadOpView::Key(key)) is Ok);
    }
    assert(u32_column(answers, row.id, PieceColumn::StartByte)->Ok_0 == row.coord.start_byte);
    assert(u32_column(answers, row.id, PieceColumn::LenBytes)->Ok_0 == row.coord.len_bytes);
    assert(int_column(answers, row.id, PieceColumn::ListNumber) is Ok);
    assert(int_column(answers, row.id, PieceColumn::PrevId) is Ok);
    assert(int_column(answers, row.id, PieceColumn::NextId) is Ok);
    assert(int_column(answers, row.id, PieceColumn::BufferId) is Ok);
    assert(int_column(answers, row.id, PieceColumn::Tombstone) is Ok);
    assert(piece_coord(answers, row.id) == Ok::<PieceCoord, crate::changelog::ChangelogError>(
        row.coord,
    ));
}

/// A row that can be read is the one that the tree has.
pub proof fn lemma_row_found(answers: Answers, tree: Tree, row: PieceRow)
    requires
        reads_tree(answers, tree),
        has_row(tree, row),
        piece_row(answers, row.id) is Ok,
    ensures
        piece_row(answers, row.id)->Ok_0 == row,
{
    assert forall|column: PieceColumn| #[trigger] int_column(answers, row.id, column) == Ok::<
        i64,
        crate::changelog::ChangelogError,
    >(cell_of(row, column)) by {
        let key = piece_key(row.id, column);
        assert(holds(tree, key, ValueView::Int(cell_of(row, column))));
        assert(answers(ReadOpView::Key(key)) is Ok);
    }
    assert(u32_column(answers, row.id, PieceColumn::StartByte)->Ok_0 == row.coord.start_byte);
    assert(u32_column(answers, row.id, PieceColumn::LenBytes)->Ok_0 == row.coord.len_bytes);
    assert(int_column(answers, row.id, PieceColumn::ListNumber) is Ok);
    assert(int_column(answers, row.id, PieceColumn::PrevId) is Ok);
    assert(int_column(answers, row.id, PieceColumn::NextId) is Ok);
    assert(int_column(answers, row.id, PieceColumn::BufferId) is Ok);
    assert(int_column(answers, row.id, PieceColumn::Tombstone) is Ok);
    assert(piece_coord(answers, row.id)->Ok_0 == row.coord);
}

/// A row that can be read is in the tree, under its list.
pub proof fn lemma_row_read(answers: Answers, tree: Tree, id: i64)
    requires
        reads_tree(answers, tree),
        piece_row(answers, id) is Ok,
    ensures
        id > 0,
        holds(
            tree,
            piece_key(id, PieceColumn::ListNumber),
            ValueView::Int(piece_row(answers, id)->Ok_0.list_number),
        ),
{
    let key = piece_key(id, PieceColumn::ListNumber);
    assert(answers(ReadOpView::Key(key)) is Ok);
}

} // verus!
