//! What the splices of an edit make of a chain.

use vstd::prelude::*;

use crate::piece_text::PieceCoord;
use crate::piece_text_chain::{
    apart, disjoint, distinct, has_piece, id_at, indexed, is_linked, linked, row_in, stays_chain,
    whole, Piece,
};
use crate::piece_text_chain_walks::{
    lemma_chain_disjoint, lemma_chain_ends, lemma_ids_differ, lemma_read_piece,
};
use crate::piece_text_edit::{
    cut_row, insert_after, insert_at_head, left_part, right_part, split_row, tombstone_row,
};
use crate::piece_text_planner::PieceRow;
use crate::piece_text_resolution::Doc;

verus! {

/// The range, deleted.
pub open spec fn dead_coord(coord: PieceCoord) -> PieceCoord {
    PieceCoord { tombstone: true, ..coord }
}

/// A chain with one piece's range replaced.
pub open spec fn with_coord(pieces: Seq<Piece>, i: int, coord: PieceCoord) -> Seq<Piece> {
    pieces.update(i, Piece { id: pieces[i].id, coord })
}

/// Every range stays where it was; only what is deleted may have changed.
spec fn same_extents(pieces: Seq<Piece>, after: Seq<Piece>) -> bool {
    &&& after.len() == pieces.len()
    &&& forall|j: int|
        0 <= j < pieces.len() ==> (#[trigger] after[j]).id == pieces[j].id && dead_coord(after[j].coord)
            == dead_coord(pieces[j].coord)
}

proof fn lemma_same_extents<E>(doc: Doc<E>, pieces: Seq<Piece>, d: Doc<E>, after: Seq<Piece>)
    requires
        is_linked(doc, pieces),
        same_extents(pieces, after),
        d.list_number == doc.list_number,
        d.head == doc.head,
        d.tail == doc.tail,
        d.candidates == doc.candidates,
        d.next_piece_id == doc.next_piece_id,
        forall|id: i64| #[trigger] d.loaded.contains(id) ==> doc.loaded.contains(id) || doc.at(id) is Ok,
        forall|id: i64| (#[trigger] d.at(id)) is Ok ==> doc.at(id) is Ok,
        forall|j: int|
            0 <= j < after.len() ==> d.at((#[trigger] after[j]).id) == Ok::<PieceRow, E>(
                row_in(doc.list_number, after, j),
            ),
    ensures
        stays_chain(doc, pieces, d, after),
{
    reveal(is_linked);
    assert(distinct(after)) by {
        assert forall|i: int| 0 <= i < after.len() implies (#[trigger] after[i]).id > 0 by {
            assert(pieces[i].id > 0);
        }
        assert forall|i: int, j: int| 0 <= i < j < after.len() implies (#[trigger] after[i]).id != (
        #[trigger] after[j]).id by {
            assert(pieces[i].id != pieces[j].id);
        }
    }
    assert(disjoint(after)) by {
        assert forall|i: int| 0 <= i < after.len() implies whole((#[trigger] after[i]).coord) by {
            assert(dead_coord(after[i].coord) == dead_coord(pieces[i].coord));
            assert(whole(pieces[i].coord));
        }
        assert forall|i: int, j: int| 0 <= i < j < after.len() implies apart(
            (#[trigger] after[i]).coord,
            (#[trigger] after[j]).coord,
        ) by {
            assert(dead_coord(after[i].coord) == dead_coord(pieces[i].coord));
            assert(dead_coord(after[j].coord) == dead_coord(pieces[j].coord));
            assert(apart(pieces[i].coord, pieces[j].coord));
        }
    }
    assert forall|id: i64, b: i64| has_piece(after, id, b) == has_piece(pieces, id, b) by {
        if has_piece(after, id, b) {
            let i = choose|i: int|
                0 <= i < after.len() && (#[trigger] after[i]).id == id && after[i].coord.buffer_id == b;
            assert(dead_coord(after[i].coord) == dead_coord(pieces[i].coord));
            assert(pieces[i].id == id);
        }
        if has_piece(pieces, id, b) {
            let i = choose|i: int|
                0 <= i < pieces.len() && (#[trigger] pieces[i]).id == id && pieces[i].coord.buffer_id
                    == b;
            assert(dead_coord(after[i].coord) == dead_coord(pieces[i].coord));
            assert(after[i].id == id);
        }
    }
    if indexed(doc, pieces) {
        reveal(indexed);
        assert forall|b: i64| b > 0 implies (#[trigger] (d.candidates)(b) matches Ok(ids)
            && ids.no_duplicates() && forall|id: i64| #[trigger]
            ids.contains(id) == has_piece(after, id, b)) by {
            assert((doc.candidates)(b) == (d.candidates)(b));
        }
    }
    assert(linked(d, after)) by {
        if pieces.len() > 0 {
            assert(after[0].id == pieces[0].id);
            assert(after[after.len() - 1].id == pieces[pieces.len() - 1].id);
        }
    }
}

/// Marking a piece of a chain as deleted.
pub proof fn lemma_tombstone_row<E>(doc: Doc<E>, pieces: Seq<Piece>, i: int)
    requires
        is_linked(doc, pieces),
        0 <= i < pieces.len(),
    ensures
        tombstone_row(doc, pieces[i].id).1 is Ok,
        stays_chain(
            doc,
            pieces,
            tombstone_row(doc, pieces[i].id).0,
            with_coord(pieces, i, dead_coord(pieces[i].coord)),
        ),
        tombstone_row(doc, pieces[i].id).0.next_piece_id == doc.next_piece_id,
        tombstone_row(doc, pieces[i].id).0.list_number == doc.list_number,
{
    let after = with_coord(pieces, i, dead_coord(pieces[i].coord));
    let d = tombstone_row(doc, pieces[i].id).0;
    lemma_read_piece(doc, pieces, i);
    let row = row_in(doc.list_number, pieces, i);
    if row.coord.tombstone {
        assert(after =~= pieces);
    } else {
        let d1 = doc.read(pieces[i].id).0;
        assert(d == d1.after_read(row.id).with_row(PieceRow { coord: dead_coord(row.coord), ..row }));
        assert forall|j: int| 0 <= j < after.len() implies d.at((#[trigger] after[j]).id) == Ok::<
            PieceRow,
            E,
        >(row_in(doc.list_number, after, j)) by {
            lemma_read_piece(doc, pieces, j);
            assert(id_at(after, j - 1) == id_at(pieces, j - 1));
            assert(id_at(after, j + 1) == id_at(pieces, j + 1));
            if j != i {
                reveal(is_linked);
                if i < j {
                    assert(pieces[i].id != pieces[j].id);
                } else {
                    assert(pieces[j].id != pieces[i].id);
                }
            }
        }
        lemma_same_extents(doc, pieces, d, after);
    }
}

// ---------- new pieces ----------

/// The chain has got `n` new pieces from the `p`-th on, with ids from `first_id`
/// on. The others keep their ids and their buffers.
pub open spec fn grown(pieces: Seq<Piece>, after: Seq<Piece>, p: int, n: int, first_id: int) -> bool {
    &&& after.len() == pieces.len() + n
    &&& 0 <= p <= pieces.len()
    &&& 0 <= n
    &&& forall|j: int|
        0 <= j < p ==> (#[trigger] after[j]).id == pieces[j].id && after[j].coord.buffer_id
            == pieces[j].coord.buffer_id
    &&& forall|j: int| p <= j < p + n ==> (#[trigger] after[j]).id == first_id + (j - p)
    &&& forall|j: int|
        p + n <= j < after.len() ==> (#[trigger] after[j]).id == pieces[j - n].id
            && after[j].coord.buffer_id == pieces[j - n].coord.buffer_id
}

/// A buffer's rows with those of the new pieces that are of it.
spec fn with_fresh(ids: Seq<i64>, after: Seq<Piece>, p: int, n: int, buffer_id: i64) -> Seq<i64>
    decreases n,
{
    if n <= 0 {
        ids
    } else {
        let before = with_fresh(ids, after, p, n - 1, buffer_id);
        let piece = after[p + n - 1];
        if piece.coord.buffer_id == buffer_id {
            before.push(piece.id)
        } else {
            before
        }
    }
}

proof fn lemma_with_fresh(ids: Seq<i64>, after: Seq<Piece>, p: int, n: int, m: int, first_id: int, b: i64)
    requires
        0 <= n <= m,
        0 <= p,
        p + m <= after.len(),
        ids.no_duplicates(),
        forall|id: i64| #[trigger] ids.contains(id) ==> id < first_id,
        forall|j: int| p <= j < p + m ==> (#[trigger] after[j]).id == first_id + (j - p),
    ensures
        with_fresh(ids, after, p, n, b).no_duplicates(),
        forall|id: i64| #[trigger]
            with_fresh(ids, after, p, n, b).contains(id) == (ids.contains(id) || exists|j: int|
                p <= j < p + n && (#[trigger] after[j]).id == id && after[j].coord.buffer_id == b),
    decreases n,
{
    if n > 0 {
        lemma_with_fresh(ids, after, p, n - 1, m, first_id, b);
        let before = with_fresh(ids, after, p, n - 1, b);
        let out = with_fresh(ids, after, p, n, b);
        let piece = after[p + n - 1];
        assert(!before.contains(piece.id)) by {
            if before.contains(piece.id) && !ids.contains(piece.id) {
                let j = choose|j: int|
                    p <= j < p + (n - 1) && (#[trigger] after[j]).id == piece.id
                        && after[j].coord.buffer_id == b;
                assert(after[j].id == first_id + (j - p));
            }
        }
        assert forall|id: i64| #[trigger] out.contains(id) == (ids.contains(id) || exists|j: int|
            p <= j < p + n && (#[trigger] after[j]).id == id && after[j].coord.buffer_id == b) by {
            if piece.coord.buffer_id == b {
                assert(out.contains(id) == (before.contains(id) || id == piece.id)) by {
                    if before.contains(id) {
                        let k = choose|k: int| 0 <= k < before.len() && before[k] == id;
                        assert(out[k] == id);
                    }
                    if id == piece.id {
                        assert(out[before.len() as int] == id);
                    }
                }
            }
            if out.contains(id) && !ids.contains(id) {
                if before.contains(id) {
                    let j = choose|j: int|
                        p <= j < p + (n - 1) && (#[trigger] after[j]).id == id
                            && after[j].coord.buffer_id == b;
                    assert(after[j].id == id);
                } else {
                    assert(after[p + n - 1].id == id);
                }
            }
            if exists|j: int|
                p <= j < p + n && (#[trigger] after[j]).id == id && after[j].coord.buffer_id == b {
                let j = choose|j: int|
                    p <= j < p + n && (#[trigger] after[j]).id == id && after[j].coord.buffer_id == b;
                if j < p + n - 1 {
                    assert(before.contains(id));
                }
            }
        }
        assert(out.no_duplicates()) by {
            if piece.coord.buffer_id == b {
                assert forall|k: int, l: int|
                    0 <= k < out.len() && 0 <= l < out.len() && k != l implies out[k] != out[l] by {
                    if k == before.len() {
                        assert(before[l] == out[l]);
                        assert(before.contains(out[l]));
                    } else if l == before.len() {
                        assert(before[k] == out[k]);
                        assert(before.contains(out[k]));
                    } else {
                        assert(before[k] != before[l]);
                    }
                }
            }
        }
    }
}

proof fn lemma_grown_has(pieces: Seq<Piece>, after: Seq<Piece>, p: int, n: int, first_id: int, id: i64, b: i64)
    requires
        grown(pieces, after, p, n, first_id),
    ensures
        has_piece(after, id, b) == (has_piece(pieces, id, b) || exists|j: int|
            p <= j < p + n && (#[trigger] after[j]).id == id && after[j].coord.buffer_id == b),
{
    if has_piece(after, id, b) {
        let i = choose|i: int|
            0 <= i < after.len() && (#[trigger] after[i]).id == id && after[i].coord.buffer_id == b;
        if i < p {
            assert(pieces[i].id == id && pieces[i].coord.buffer_id == b);
        } else if i >= p + n {
            assert(pieces[i - n].id == id && pieces[i - n].coord.buffer_id == b);
        }
    }
    if has_piece(pieces, id, b) {
        let i = choose|i: int|
            0 <= i < pieces.len() && (#[trigger] pieces[i]).id == id && pieces[i].coord.buffer_id == b;
        if i < p {
            assert(after[i].id == id && after[i].coord.buffer_id == b);
        } else {
            assert(after[i + n].id == id && after[i + n].coord.buffer_id == b);
        }
    }
}

/// The document's links follow the pieces, and its lookups find the new ones.
spec fn regrown<E>(doc: Doc<E>, d: Doc<E>, after: Seq<Piece>, p: int, n: int) -> bool {
    &&& d.list_number == doc.list_number
    &&& d.head == Ok::<i64, E>(id_at(after, 0))
    &&& d.tail == Ok::<i64, E>(id_at(after, after.len() - 1))
    &&& d.next_piece_id == doc.next_piece_id + n
    &&& forall|b: i64|
        b > 0 && (doc.candidates)(b) is Ok ==> (#[trigger] (d.candidates)(b)) == Ok::<Seq<i64>, E>(
            with_fresh((doc.candidates)(b)->Ok_0, after, p, n, b),
        )
    &&& forall|id: i64| #[trigger]
        d.loaded.contains(id) ==> doc.loaded.contains(id) || doc.at(id) is Ok || id < d.next_piece_id
    &&& forall|id: i64| (#[trigger] d.at(id)) is Ok ==> doc.at(id) is Ok || id < d.next_piece_id
    &&& forall|j: int|
        0 <= j < after.len() ==> d.at((#[trigger] after[j]).id) == Ok::<PieceRow, E>(
            row_in(doc.list_number, after, j),
        )
}

proof fn lemma_grown<E>(doc: Doc<E>, pieces: Seq<Piece>, d: Doc<E>, after: Seq<Piece>, p: int, n: int)
    requires
        is_linked(doc, pieces),
        grown(pieces, after, p, n, doc.next_piece_id as int),
        disjoint(after),
        regrown(doc, d, after, p, n),
    ensures
        stays_chain(doc, pieces, d, after),
{
    reveal(is_linked);
    let first_id = doc.next_piece_id as int;
    assert forall|i: int| 0 <= i < pieces.len() implies 0 < (#[trigger] pieces[i]).id < first_id by {
        assert(doc.at(pieces[i].id) is Ok);
    }
    assert(distinct(after)) by {
        assert forall|i: int| 0 <= i < after.len() implies (#[trigger] after[i]).id > 0 by {
            if i < p {
                assert(pieces[i].id > 0);
            } else if i >= p + n {
                assert(pieces[i - n].id > 0);
            }
        }
        assert forall|i: int, j: int| 0 <= i < j < after.len() implies (#[trigger] after[i]).id != (
        #[trigger] after[j]).id by {
            let a = if i < p { i } else { i - n };
            let b = if j < p { j } else { j - n };
            if p <= i < p + n {
                if j >= p + n {
                    assert(pieces[b].id < first_id);
                }
            } else if p <= j < p + n {
                assert(pieces[a].id < first_id);
            } else {
                assert(pieces[a].id != pieces[b].id);
            }
        }
    }
    if indexed(doc, pieces) {
        reveal(indexed);
        assert forall|b: i64| b > 0 implies (#[trigger] (d.candidates)(b) matches Ok(ids)
            && ids.no_duplicates() && forall|id: i64| #[trigger]
            ids.contains(id) == has_piece(after, id, b)) by {
            assert((doc.candidates)(b) is Ok);
            let ids = (doc.candidates)(b)->Ok_0;
            assert forall|id: i64| #[trigger] ids.contains(id) implies id < first_id by {
                assert(has_piece(pieces, id, b));
                let i = choose|i: int|
                    0 <= i < pieces.len() && (#[trigger] pieces[i]).id == id
                        && pieces[i].coord.buffer_id == b;
                assert(pieces[i].id < first_id);
            }
            lemma_with_fresh(ids, after, p, n, n, first_id, b);
            let out = (d.candidates)(b)->Ok_0;
            assert forall|id: i64| #[trigger] out.contains(id) == has_piece(after, id, b) by {
                lemma_grown_has(pieces, after, p, n, first_id, id, b);
                assert(ids.contains(id) == has_piece(pieces, id, b));
            }
        }
    }
}

/// The range has no byte in common with any piece.
pub open spec fn is_fresh(pieces: Seq<Piece>, coord: PieceCoord) -> bool {
    &&& whole(coord)
    &&& forall|j: int| 0 <= j < pieces.len() ==> apart((#[trigger] pieces[j]).coord, coord)
}

/// The next free id is taken by no row, and none was read under it.
proof fn lemma_next_is_free<E>(doc: Doc<E>, pieces: Seq<Piece>)
    requires
        is_linked(doc, pieces),
    ensures
        doc.next_piece_id > 0,
        forall|id: i64| id >= doc.next_piece_id ==> !(#[trigger] doc.loaded.contains(id)),
        forall|id: i64| id >= doc.next_piece_id ==> !((#[trigger] doc.at(id)) is Ok),
        forall|j: int| 0 <= j < pieces.len() ==> 0 < (#[trigger] pieces[j]).id < doc.next_piece_id,
{
    reveal(is_linked);
    assert forall|j: int| 0 <= j < pieces.len() implies 0 < (#[trigger] pieces[j]).id
        < doc.next_piece_id by {
        assert(doc.at(pieces[j].id) is Ok);
    }
}

proof fn lemma_insert_disjoint(pieces: Seq<Piece>, p: int, piece: Piece)
    requires
        disjoint(pieces),
        is_fresh(pieces, piece.coord),
        0 <= p <= pieces.len(),
    ensures
        disjoint(pieces.insert(p, piece)),
{
    let after = pieces.insert(p, piece);
    assert forall|i: int| 0 <= i < after.len() implies whole((#[trigger] after[i]).coord) by {
        if i < p {
            assert(whole(pieces[i].coord));
        } else if i > p {
            assert(whole(pieces[i - 1].coord));
        }
    }
    assert forall|i: int, j: int| 0 <= i < j < after.len() implies apart(
        (#[trigger] after[i]).coord,
        (#[trigger] after[j]).coord,
    ) by {
        let a = if i < p { i } else { i - 1 };
        let b = if j < p { j } else { j - 1 };
        if i == p {
            assert(apart(pieces[b].coord, piece.coord));
        } else if j == p {
            assert(apart(pieces[a].coord, piece.coord));
        } else {
            assert(apart(pieces[a].coord, pieces[b].coord));
        }
    }
}

/// A row of the document and the one after it, linked to each other, with free
/// ids from the next on.
spec fn well_placed<E>(doc: Doc<E>, row: PieceRow) -> bool {
    &&& doc.at(row.id) == Ok::<PieceRow, E>(row)
    &&& row.id != row.next_id
    &&& doc.next_piece_id > 0
    &&& row.id < doc.next_piece_id
    &&& row.next_id < doc.next_piece_id
    &&& forall|id: i64| id >= doc.next_piece_id ==> !(#[trigger] doc.loaded.contains(id))
    &&& forall|id: i64| id >= doc.next_piece_id ==> !((#[trigger] doc.at(id)) is Ok)
    &&& if row.next_id == 0 {
        doc.tail == Ok::<i64, E>(row.id)
    } else {
        doc.at(row.next_id) matches Ok(next) && next.prev_id == row.id && next.id == row.next_id
    }
}

/// The document's rows after new rows were put behind `row`: `row` itself has
/// become `changed`, and the one after it follows `last_new`.
spec fn row_behind<E>(
    doc: Doc<E>,
    d: Doc<E>,
    row: PieceRow,
    changed: PieceRow,
    last_new: i64,
    id: i64,
) -> bool {
    if id == row.id {
        d.at(id) == Ok::<PieceRow, E>(changed)
    } else if id == row.next_id && id != 0 {
        d.at(id) == Ok::<PieceRow, E>(PieceRow { prev_id: last_new, ..doc.at(id)->Ok_0 })
    } else {
        d.at(id) == doc.at(id)
    }
}

/// What splices behind a row leave of the document.
spec fn spliced_behind<E>(doc: Doc<E>, d: Doc<E>, row: PieceRow, last_new: i64, n: int) -> bool {
    &&& d.list_number == doc.list_number
    &&& d.head == doc.head
    &&& d.tail == (if row.next_id == 0 {
        Ok::<i64, E>(last_new)
    } else {
        doc.tail
    })
    &&& d.next_piece_id == doc.next_piece_id + n
    &&& forall|id: i64| #[trigger]
        d.loaded.contains(id) ==> doc.loaded.contains(id) || doc.at(id) is Ok || id < d.next_piece_id
}

/// What a lookup found, with a row added if it is of the buffer.
spec fn pushed<E>(ids: Result<Seq<i64>, E>, is_of: bool, id: i64) -> Result<Seq<i64>, E> {
    match ids {
        Ok(s) => Ok(
            if is_of {
                s.push(id)
            } else {
                s
            },
        ),
        Err(e) => Err(e),
    }
}

proof fn lemma_after_effect<E>(doc: Doc<E>, row: PieceRow, coord: PieceCoord)
    requires
        well_placed(doc, row),
        doc.next_piece_id < i64::MAX,
    ensures
        ({
            let (d, r) = insert_after(doc, row.id, coord);
            let m = doc.next_piece_id;
            &&& r is Ok
            &&& spliced_behind(doc, d, row, m, 1)
            &&& d.at(m) == Ok::<PieceRow, E>(
                PieceRow {
                    id: m,
                    list_number: doc.list_number,
                    prev_id: row.id,
                    next_id: row.next_id,
                    coord,
                },
            )
            &&& forall|id: i64|
                id != m ==> #[trigger] row_behind(doc, d, row, PieceRow { next_id: m, ..row }, m, id)
            &&& forall|b: i64| #[trigger]
                (d.candidates)(b) == pushed((doc.candidates)(b), b == coord.buffer_id, m)
        }),
{
}

/// A piece of a chain and the next free ids are fit for a splice.
proof fn lemma_well_placed<E>(doc: Doc<E>, pieces: Seq<Piece>, i: int)
    requires
        is_linked(doc, pieces),
        0 <= i < pieces.len(),
    ensures
        well_placed(doc, row_in(doc.list_number, pieces, i)),
{
    lemma_read_piece(doc, pieces, i);
    lemma_next_is_free(doc, pieces);
    lemma_chain_ends(doc, pieces);
    if i + 1 < pieces.len() {
        lemma_read_piece(doc, pieces, i + 1);
        lemma_ids_differ(doc, pieces, i, i + 1);
    }
}

/// After a splice behind a piece of a chain the links follow the pieces, if they
/// do so at the new ones.
proof fn lemma_relinked<E>(
    doc: Doc<E>,
    pieces: Seq<Piece>,
    d: Doc<E>,
    after: Seq<Piece>,
    i: int,
    n: int,
    changed: PieceRow,
    last_new: i64,
)
    requires
        is_linked(doc, pieces),
        0 <= i < pieces.len(),
        n > 0,
        grown(pieces, after, i + 1, n, doc.next_piece_id as int),
        forall|j: int| 0 <= j < i ==> (#[trigger] after[j]).coord == pieces[j].coord,
        forall|j: int| i + n < j < after.len() ==> (#[trigger] after[j]).coord == pieces[j - n].coord,
        changed == row_in(doc.list_number, after, i),
        last_new == after[i + n].id,
        forall|id: i64|
            id < doc.next_piece_id ==> #[trigger] row_behind(
                doc,
                d,
                row_in(doc.list_number, pieces, i),
                changed,
                last_new,
                id,
            ),
    ensures
        forall|j: int|
            0 <= j < after.len() && !(i < j <= i + n) ==> d.at((#[trigger] after[j]).id) == Ok::<
                PieceRow,
                E,
            >(row_in(doc.list_number, after, j)),
{
    let row = row_in(doc.list_number, pieces, i);
    lemma_next_is_free(doc, pieces);
    assert forall|j: int| 0 <= j < after.len() && !(i < j <= i + n) implies d.at(
        (#[trigger] after[j]).id,
    ) == Ok::<PieceRow, E>(row_in(doc.list_number, after, j)) by {
        let k = if j <= i { j } else { j - n };
        assert(after[j].id == pieces[k].id);
        assert(row_behind(doc, d, row, changed, last_new, pieces[k].id));
        lemma_read_piece(doc, pieces, k);
        if k != i {
            lemma_ids_differ(doc, pieces, k, i);
        }
        if i + 1 < pieces.len() && k != i + 1 {
            lemma_ids_differ(doc, pieces, k, i + 1);
        }
        if j < i {
            assert(id_at(after, j - 1) == id_at(pieces, j - 1));
            assert(after[j + 1].id == pieces[j + 1].id);
        } else if j > i + n {
            if j > i + n + 1 {
                assert(after[j - 1].id == pieces[k - 1].id);
            }
            if j + 1 < after.len() {
                assert(after[j + 1].id == pieces[k + 1].id);
            }
        }
    }
}

/// Putting a new piece behind a piece of a chain.
#[verifier::rlimit(40)]
#[verifier::spinoff_prover]
pub proof fn lemma_insert_after<E>(doc: Doc<E>, pieces: Seq<Piece>, i: int, coord: PieceCoord)
    requires
        is_linked(doc, pieces),
        0 <= i < pieces.len(),
        is_fresh(pieces, coord),
        doc.next_piece_id < i64::MAX,
    ensures
        insert_after(doc, pieces[i].id, coord).1 is Ok,
        stays_chain(
            doc,
            pieces,
            insert_after(doc, pieces[i].id, coord).0,
            pieces.insert(i + 1, Piece { id: doc.next_piece_id, coord }),
        ),
        insert_after(doc, pieces[i].id, coord).0.next_piece_id == doc.next_piece_id + 1,
        insert_after(doc, pieces[i].id, coord).0.list_number == doc.list_number,
{
    let m = doc.next_piece_id;
    let piece = Piece { id: m, coord };
    let after = pieces.insert(i + 1, piece);
    let row = row_in(doc.list_number, pieces, i);
    let changed = PieceRow { next_id: m, ..row };
    let (d, r) = insert_after(doc, pieces[i].id, coord);
    lemma_well_placed(doc, pieces, i);
    lemma_after_effect(doc, row, coord);
    lemma_chain_ends(doc, pieces);
    assert(disjoint(after)) by {
        lemma_chain_disjoint(doc, pieces);
        lemma_insert_disjoint(pieces, i + 1, piece);
    }
    assert(grown(pieces, after, i + 1, 1, m as int));
    lemma_relinked(doc, pieces, d, after, i, 1, changed, m);
    assert(regrown(doc, d, after, i + 1, 1)) by {
        reveal_with_fuel(with_fresh, 3);
        assert forall|j: int| 0 <= j < after.len() implies d.at((#[trigger] after[j]).id) == Ok::<
            PieceRow,
            E,
        >(row_in(doc.list_number, after, j)) by {}
        assert forall|id: i64| (#[trigger] d.at(id)) is Ok implies doc.at(id) is Ok || id
            < d.next_piece_id by {
            if id != m {
                assert(row_behind(doc, d, row, changed, m, id));
            }
        }
    }
    lemma_grown(doc, pieces, d, after, i + 1, 1);
}

/// Putting a new piece in front of a chain.
#[verifier::rlimit(60)]
#[verifier::spinoff_prover]
pub proof fn lemma_insert_at_head<E>(doc: Doc<E>, pieces: Seq<Piece>, coord: PieceCoord)
    requires
        is_linked(doc, pieces),
        is_fresh(pieces, coord),
        doc.next_piece_id < i64::MAX,
    ensures
        insert_at_head(doc, coord).1 is Ok,
        stays_chain(
            doc,
            pieces,
            insert_at_head(doc, coord).0,
            pieces.insert(0, Piece { id: doc.next_piece_id, coord }),
        ),
        insert_at_head(doc, coord).0.next_piece_id == doc.next_piece_id + 1,
        insert_at_head(doc, coord).0.list_number == doc.list_number,
{
    let new_id = doc.next_piece_id;
    let piece = Piece { id: new_id, coord };
    let after = pieces.insert(0, piece);
    lemma_next_is_free(doc, pieces);
    lemma_chain_ends(doc, pieces);
    if pieces.len() > 0 {
        lemma_read_piece(doc, pieces, 0);
    }
    let (d, r) = insert_at_head(doc, coord);
    assert(r is Ok);
    assert(disjoint(after)) by {
        lemma_chain_disjoint(doc, pieces);
        lemma_insert_disjoint(pieces, 0, piece);
    }
    assert(regrown(doc, d, after, 0, 1)) by {
        reveal_with_fuel(with_fresh, 3);
        assert forall|j: int| 0 <= j < after.len() implies d.at((#[trigger] after[j]).id) == Ok::<
            PieceRow,
            E,
        >(row_in(doc.list_number, after, j)) by {
            if j > 0 {
                lemma_read_piece(doc, pieces, j - 1);
                if j > 1 {
                    lemma_ids_differ(doc, pieces, 0, j - 1);
                }
            }
        }
    }
    lemma_grown(doc, pieces, d, after, 0, 1);
}

// ---------- cuts ----------

proof fn lemma_cut_effect<E>(
    doc: Doc<E>,
    row: PieceRow,
    k: u32,
    left_tombstone: bool,
    right_tombstone: bool,
)
    requires
        well_placed(doc, row),
        doc.next_piece_id < i64::MAX,
    ensures
        ({
            let (d, r) = cut_row(doc, row, k, left_tombstone, right_tombstone);
            let m = doc.next_piece_id;
            let changed = PieceRow {
                next_id: m,
                coord: left_part(row.coord, k, left_tombstone),
                ..row
            };
            &&& r is Ok
            &&& spliced_behind(doc, d, row, m, 1)
            &&& d.at(m) == Ok::<PieceRow, E>(
                PieceRow {
                    id: m,
                    list_number: doc.list_number,
                    prev_id: row.id,
                    next_id: row.next_id,
                    coord: right_part(row.coord, k, right_tombstone),
                },
            )
            &&& forall|id: i64| id != m ==> #[trigger] row_behind(doc, d, row, changed, m, id)
            &&& forall|b: i64| #[trigger]
                (d.candidates)(b) == pushed((doc.candidates)(b), b == row.coord.buffer_id, m)
        }),
{
}

proof fn lemma_split_effect<E>(doc: Doc<E>, row: PieceRow, k1: u32, k2: u32, middle: PieceCoord)
    requires
        well_placed(doc, row),
        doc.next_piece_id < i64::MAX - 1,
    ensures
        ({
            let (d, r) = split_row(doc, row, k1, k2, middle);
            let m = doc.next_piece_id;
            let n = (m + 1) as i64;
            let changed = PieceRow {
                next_id: m,
                coord: left_part(row.coord, k1, row.coord.tombstone),
                ..row
            };
            &&& r is Ok
            &&& spliced_behind(doc, d, row, n, 2)
            &&& d.at(m) == Ok::<PieceRow, E>(
                PieceRow {
                    id: m,
                    list_number: doc.list_number,
                    prev_id: row.id,
                    next_id: n,
                    coord: middle,
                },
            )
            &&& d.at(n) == Ok::<PieceRow, E>(
                PieceRow {
                    id: n,
                    list_number: doc.list_number,
                    prev_id: m,
                    next_id: row.next_id,
                    coord: right_part(row.coord, k2, row.coord.tombstone),
                },
            )
            &&& forall|id: i64|
                id != m && id != n ==> #[trigger] row_behind(doc, d, row, changed, n, id)
            &&& forall|b: i64| #[trigger]
                (d.candidates)(b) == pushed(
                    pushed((doc.candidates)(b), b == middle.buffer_id, m),
                    b == row.coord.buffer_id,
                    n,
                )
        }),
{
}

/// A chain with a piece cut in two.
pub open spec fn cut_piece(pieces: Seq<Piece>, i: int, left: PieceCoord, right: Piece) -> Seq<Piece> {
    with_coord(pieces, i, left).insert(i + 1, right)
}

/// A chain with a piece parted in two, and another piece between the parts.
pub open spec fn split_piece(
    pieces: Seq<Piece>,
    i: int,
    left: PieceCoord,
    middle: Piece,
    right: Piece,
) -> Seq<Piece> {
    with_coord(pieces, i, left).insert(i + 1, middle).insert(i + 2, right)
}

/// A range that is a part of another.
spec fn within(part: PieceCoord, coord: PieceCoord) -> bool {
    &&& part.buffer_id == coord.buffer_id
    &&& coord.start_byte <= part.start_byte
    &&& part.end() <= coord.end()
}

proof fn lemma_shorter_disjoint(pieces: Seq<Piece>, i: int, left: PieceCoord)
    requires
        disjoint(pieces),
        0 <= i < pieces.len(),
        whole(left),
        within(left, pieces[i].coord),
    ensures
        disjoint(with_coord(pieces, i, left)),
{
    let after = with_coord(pieces, i, left);
    assert forall|a: int| 0 <= a < after.len() implies whole((#[trigger] after[a]).coord) by {
        if a != i {
            assert(whole(pieces[a].coord));
        }
    }
    assert forall|a: int, b: int| 0 <= a < b < after.len() implies apart(
        (#[trigger] after[a]).coord,
        (#[trigger] after[b]).coord,
    ) by {
        assert(apart(pieces[a].coord, pieces[b].coord));
    }
}

/// What is part of a piece, and apart from what is left of it, is apart from all
/// pieces.
proof fn lemma_rest_fresh(pieces: Seq<Piece>, i: int, left: PieceCoord, rest: PieceCoord)
    requires
        disjoint(pieces),
        0 <= i < pieces.len(),
        whole(rest),
        within(rest, pieces[i].coord),
        apart(left, rest),
    ensures
        is_fresh(with_coord(pieces, i, left), rest),
{
    let after = with_coord(pieces, i, left);
    assert forall|j: int| 0 <= j < after.len() implies apart((#[trigger] after[j]).coord, rest) by {
        if j < i {
            assert(apart(pieces[j].coord, pieces[i].coord));
        } else if j > i {
            assert(apart(pieces[i].coord, pieces[j].coord));
        }
    }
}

/// Cutting a piece of a chain.
pub proof fn lemma_cut_row<E>(
    doc: Doc<E>,
    pieces: Seq<Piece>,
    i: int,
    k: u32,
    left_tombstone: bool,
    right_tombstone: bool,
)
    requires
        is_linked(doc, pieces),
        0 <= i < pieces.len(),
        0 < k < pieces[i].coord.len_bytes,
        doc.next_piece_id < i64::MAX,
    ensures
        ({
            let row = row_in(doc.list_number, pieces, i);
            let (d, r) = cut_row(doc, row, k, left_tombstone, right_tombstone);
            &&& r is Ok
            &&& stays_chain(
            doc,
            pieces,
                d,
                cut_piece(
                    pieces,
                    i,
                    left_part(row.coord, k, left_tombstone),
                    Piece {
                        id: doc.next_piece_id,
                        coord: right_part(row.coord, k, right_tombstone),
                    },
                ),
            )
            &&& d.next_piece_id == doc.next_piece_id + 1
            &&& d.list_number == doc.list_number
        }),
{
    let m = doc.next_piece_id;
    let row = row_in(doc.list_number, pieces, i);
    let left = left_part(row.coord, k, left_tombstone);
    let right = Piece { id: m, coord: right_part(row.coord, k, right_tombstone) };
    let after = cut_piece(pieces, i, left, right);
    let changed = PieceRow { next_id: m, coord: left, ..row };
    let (d, r) = cut_row(doc, row, k, left_tombstone, right_tombstone);
    lemma_read_piece(doc, pieces, i);
    lemma_well_placed(doc, pieces, i);
    lemma_cut_effect(doc, row, k, left_tombstone, right_tombstone);
    lemma_chain_ends(doc, pieces);
    assert(disjoint(after)) by {
        lemma_chain_disjoint(doc, pieces);
        lemma_shorter_disjoint(pieces, i, left);
        lemma_rest_fresh(pieces, i, left, right.coord);
        lemma_insert_disjoint(with_coord(pieces, i, left), i + 1, right);
    }
    assert(grown(pieces, after, i + 1, 1, m as int));
    lemma_relinked(doc, pieces, d, after, i, 1, changed, m);
    assert(regrown(doc, d, after, i + 1, 1)) by {
        reveal_with_fuel(with_fresh, 3);
        assert forall|j: int| 0 <= j < after.len() implies d.at((#[trigger] after[j]).id) == Ok::<
            PieceRow,
            E,
        >(row_in(doc.list_number, after, j)) by {}
        assert forall|id: i64| (#[trigger] d.at(id)) is Ok implies doc.at(id) is Ok || id
            < d.next_piece_id by {
            if id != m {
                assert(row_behind(doc, d, row, changed, m, id));
            }
        }
    }
    lemma_grown(doc, pieces, d, after, i + 1, 1);
}

/// Parting a piece of a chain for another piece.
pub proof fn lemma_split_row<E>(
    doc: Doc<E>,
    pieces: Seq<Piece>,
    i: int,
    k1: u32,
    k2: u32,
    middle: PieceCoord,
)
    requires
        is_linked(doc, pieces),
        0 <= i < pieces.len(),
        0 < k1 <= k2 < pieces[i].coord.len_bytes,
        whole(middle),
        forall|j: int|
            0 <= j < pieces.len() && j != i ==> apart((#[trigger] pieces[j]).coord, middle),
        apart(left_part(pieces[i].coord, k1, pieces[i].coord.tombstone), middle),
        apart(middle, right_part(pieces[i].coord, k2, pieces[i].coord.tombstone)),
        doc.next_piece_id < i64::MAX - 1,
    ensures
        ({
            let row = row_in(doc.list_number, pieces, i);
            let (d, r) = split_row(doc, row, k1, k2, middle);
            let m = doc.next_piece_id;
            &&& r is Ok
            &&& stays_chain(
            doc,
            pieces,
                d,
                split_piece(
                    pieces,
                    i,
                    left_part(row.coord, k1, row.coord.tombstone),
                    Piece { id: m, coord: middle },
                    Piece {
                        id: (m + 1) as i64,
                        coord: right_part(row.coord, k2, row.coord.tombstone),
                    },
                ),
            )
            &&& d.next_piece_id == m + 2
            &&& d.list_number == doc.list_number
        }),
{
    let m = doc.next_piece_id;
    let n = (m + 1) as i64;
    let row = row_in(doc.list_number, pieces, i);
    let left = left_part(row.coord, k1, row.coord.tombstone);
    let mid = Piece { id: m, coord: middle };
    let right = Piece { id: n, coord: right_part(row.coord, k2, row.coord.tombstone) };
    let shorter = with_coord(pieces, i, left);
    let after = split_piece(pieces, i, left, mid, right);
    let changed = PieceRow { next_id: m, coord: left, ..row };
    let (d, r) = split_row(doc, row, k1, k2, middle);
    lemma_read_piece(doc, pieces, i);
    lemma_well_placed(doc, pieces, i);
    lemma_split_effect(doc, row, k1, k2, middle);
    lemma_chain_ends(doc, pieces);
    assert(disjoint(after)) by {
        lemma_chain_disjoint(doc, pieces);
        lemma_shorter_disjoint(pieces, i, left);
        lemma_rest_fresh(pieces, i, left, right.coord);
        assert(is_fresh(shorter, middle)) by {
            assert forall|j: int| 0 <= j < shorter.len() implies apart(
                (#[trigger] shorter[j]).coord,
                middle,
            ) by {
                if j != i {
                    assert(apart(pieces[j].coord, middle));
                }
            }
        }
        lemma_insert_disjoint(shorter, i + 1, mid);
        let two = shorter.insert(i + 1, mid);
        assert(is_fresh(two, right.coord)) by {
            assert forall|j: int| 0 <= j < two.len() implies apart((#[trigger] two[j]).coord, right.coord) by {
                if j < i + 1 {
                    assert(apart(shorter[j].coord, right.coord));
                } else if j > i + 1 {
                    assert(apart(shorter[j - 1].coord, right.coord));
                }
            }
        }
        lemma_insert_disjoint(two, i + 2, right);
    }
    assert(grown(pieces, after, i + 1, 2, m as int));
    lemma_relinked(doc, pieces, d, after, i, 2, changed, n);
    assert(regrown(doc, d, after, i + 1, 2)) by {
        reveal_with_fuel(with_fresh, 3);
        assert forall|j: int| 0 <= j < after.len() implies d.at((#[trigger] after[j]).id) == Ok::<
            PieceRow,
            E,
        >(row_in(doc.list_number, after, j)) by {
            if j == i + 1 {
                assert(after[j] == mid);
            } else if j == i + 2 {
                assert(after[j] == right);
            }
        }
        assert forall|id: i64| (#[trigger] d.at(id)) is Ok implies doc.at(id) is Ok || id
            < d.next_piece_id by {
            if id != m && id != n {
                assert(row_behind(doc, d, row, changed, n, id));
            }
        }
    }
    lemma_grown(doc, pieces, d, after, i + 1, 2);
}

} // verus!
