//! What a plan does to the text of the snapshot that it is made on.

use vstd::prelude::*;

use crate::piece_text::{
    BufferCoord, InsertedBufferManifest, MAX_BUFFER_LEN_BYTES, PieceTextEditItemManifest,
};
use crate::piece_text_chain::{
    anchors, apart, bytes_of, cut_out, disjoint, distinct, has_piece, id_at, indexed, is_chain,
    is_linked, knows, linked, live_len, live_place, row_in, spliced, text, whole, BytePlace, Piece,
};
use crate::piece_text_chain_splices::is_fresh;
use crate::piece_text_chain_walks::{
    finds, finds_apart, lemma_anchor_unique, lemma_chain_disjoint, lemma_finds_among,
    lemma_read_piece, lies_in,
};
use crate::piece_text_edit::{delete_text, insert_piece};
use crate::piece_text_edit_laws::lemma_buffer_ids;
use crate::piece_text_edit_writes::{has_id, has_no_others};
use crate::piece_text_laws::{
    deleted_chain, inserted_chain, lemma_delete_cuts_text, lemma_insert_splices_text, lemma_live_place,
};
use crate::piece_text_overlay::whole_buffer;
use crate::piece_text_planner::{
    lengths_by_id, plan, plan_start, rows_by_id, rows_in_buffer, snapshot_doc, snapshot_fault,
    BufferInsertView, PieceRow, PieceSnapshot, PlanState, PlannerError, PlannerInput,
};
use crate::piece_text_resolution::Doc;
use crate::piece_text_snapshot_laws::{
    doc_rows, ids_differ, lemma_plan_kept, lemma_rows_by_id, lemma_snapshot_sound,
    lemma_valid_rows_differ, pieces_written, plan_end, rows_apart, with_lengths,
};
use crate::piece_text_upkeep::{points_back, row_sound, sound};

verus! {

// ---------- rows in the order of their links ----------

/// The pieces that follow each other from a row on, at most `n`.
pub open spec fn walk_from(rows: Map<i64, PieceRow>, id: i64, n: nat) -> Seq<Piece>
    decreases n,
{
    if n == 0 || !rows.contains_key(id) {
        Seq::empty()
    } else {
        seq![Piece { id, coord: rows[id].coord }] + walk_from(rows, rows[id].next_id, (n - 1) as nat)
    }
}

/// The pieces of a snapshot, from its head on.
pub open spec fn from_head(pieces: PieceSnapshot) -> Seq<Piece> {
    walk_from(rows_by_id(pieces.pieces@), pieces.head_id, pieces.pieces@.len())
}

/// The bytes of the live rows of a snapshot, in the order of its chain.
pub open spec fn snapshot_text(pieces: PieceSnapshot) -> Seq<BytePlace> {
    text(from_head(pieces))
}

/// What a walk over the rows of a sound document gives.
proof fn lemma_walk<E>(doc: Doc<E>, lengths: Map<i64, u32>, id: i64, n: nat)
    requires
        sound(doc, lengths),
    ensures
        ({
            let rows = doc_rows(doc);
            let w = walk_from(rows, id, n);
            &&& w.len() <= n
            &&& w.len() > 0 ==> w[0].id == id
            &&& w.len() == 0 ==> n == 0 || !rows.contains_key(id)
            &&& forall|i: int|
                0 <= i < w.len() ==> rows.contains_key((#[trigger] w[i]).id) && w[i].coord
                    == rows[w[i].id].coord
            &&& forall|i: int|
                0 <= i < w.len() - 1 ==> rows[(#[trigger] w[i]).id].next_id == w[i + 1].id
            &&& 0 < w.len() < n ==> !rows.contains_key(rows[w.last().id].next_id)
        }),
    decreases n,
{
    let rows = doc_rows(doc);
    if n > 0 && rows.contains_key(id) {
        let next = rows[id].next_id;
        lemma_walk(doc, lengths, next, (n - 1) as nat);
        let rest = walk_from(rows, next, (n - 1) as nat);
        let w = walk_from(rows, id, n);
        assert forall|i: int| 0 <= i < w.len() implies rows.contains_key((#[trigger] w[i]).id)
            && w[i].coord == rows[w[i].id].coord by {
            if i > 0 {
                assert(w[i] == rest[i - 1]);
            }
        }
        assert forall|i: int| 0 <= i < w.len() - 1 implies rows[(#[trigger] w[i]).id].next_id == w[i
            + 1].id by {
            assert(w[i + 1] == rest[i]);
            if i > 0 {
                assert(w[i] == rest[i - 1]);
            }
        }
        if rest.len() > 0 {
            assert(w.last() == rest.last());
        } else {
            assert(w.last() == w[0]);
        }
    }
}

proof fn lemma_walk_more(rows: Map<i64, PieceRow>, id: i64, n: nat)
    requires
        walk_from(rows, id, n + 1).len() <= n,
    ensures
        walk_from(rows, id, n) == walk_from(rows, id, n + 1),
    decreases n,
{
    if n > 0 && rows.contains_key(id) {
        lemma_walk_more(rows, rows[id].next_id, (n - 1) as nat);
    }
}

/// Back pointers lead from each piece of a walk from the head to the one before.
proof fn lemma_walk_back<E>(doc: Doc<E>, lengths: Map<i64, u32>, n: nat, i: int)
    requires
        sound(doc, lengths),
        0 <= i < walk_from(doc_rows(doc), doc.head_id(), n).len(),
    ensures
        ({
            let w = walk_from(doc_rows(doc), doc.head_id(), n);
            doc.at(w[i].id) matches Ok(row) && row.prev_id == id_at(w, i - 1) && w[i].id > 0
        }),
{
    let rows = doc_rows(doc);
    let w = walk_from(rows, doc.head_id(), n);
    lemma_walk(doc, lengths, doc.head_id(), n);
    assert(rows.contains_key(w[i].id));
    assert(row_sound(doc, lengths, w[i].id));
    if i > 0 {
        assert(rows.contains_key(w[i - 1].id));
        assert(rows[w[i - 1].id].next_id == w[i].id);
        assert(row_sound(doc, lengths, w[i - 1].id));
    } else {
        assert(points_back(doc, doc.head_id(), 0));
    }
}

proof fn lemma_walk_distinct<E>(doc: Doc<E>, lengths: Map<i64, u32>, n: nat, i: int, j: int)
    requires
        sound(doc, lengths),
        0 <= i < j < walk_from(doc_rows(doc), doc.head_id(), n).len(),
    ensures
        walk_from(doc_rows(doc), doc.head_id(), n)[i].id != walk_from(
            doc_rows(doc),
            doc.head_id(),
            n,
        )[j].id,
    decreases i,
{
    lemma_walk_back(doc, lengths, n, i);
    lemma_walk_back(doc, lengths, n, j);
    lemma_walk_back(doc, lengths, n, j - 1);
    lemma_walk(doc, lengths, doc.head_id(), n);
    let rows = doc_rows(doc);
    let w = walk_from(rows, doc.head_id(), n);
    assert(rows.contains_key(w[j - 1].id));
    assert(row_sound(doc, lengths, w[j - 1].id));
    if i > 0 {
        lemma_walk_distinct(doc, lengths, n, i - 1, j - 1);
    }
}

/// There are no more pieces with ids of their own than there are rows.
proof fn lemma_pieces_fit(rows: Map<i64, PieceRow>, pieces: Seq<Piece>)
    requires
        rows.dom().finite(),
        distinct(pieces),
        forall|i: int| 0 <= i < pieces.len() ==> rows.contains_key((#[trigger] pieces[i]).id),
    ensures
        pieces.len() <= rows.dom().len(),
{
    let ids = Seq::new(pieces.len(), |i: int| pieces[i].id);
    assert(ids.no_duplicates()) by {
        assert forall|i: int, j: int| 0 <= i < ids.len() && 0 <= j < ids.len() && i != j implies ids[i]
            != ids[j] by {
            assert(pieces[i].id != pieces[j].id);
        }
    }
    ids.unique_seq_to_set();
    assert forall|id: i64| ids.to_set().contains(id) implies rows.dom().contains(id) by {
        let i = choose|i: int| 0 <= i < ids.len() && ids[i] == id;
        assert(rows.contains_key(pieces[i].id));
    }
    vstd::set_lib::lemma_len_subset(ids.to_set(), rows.dom());
}

proof fn lemma_rows_count(rows: Seq<PieceRow>)
    ensures
        rows_by_id(rows).dom().finite(),
        rows_by_id(rows).dom().len() <= rows.len(),
    decreases rows.len(),
{
    if rows.len() > 0 {
        lemma_rows_count(rows.drop_last());
        let before = rows_by_id(rows.drop_last()).dom();
        assert(rows_by_id(rows).dom() =~= before.insert(rows.last().id));
    }
}

/// The rows of a sound document from its head on are linked as a chain.
proof fn lemma_walk_linked<E>(doc: Doc<E>, lengths: Map<i64, u32>, n: nat)
    requires
        sound(doc, lengths),
        doc_rows(doc).dom().finite(),
        doc_rows(doc).dom().len() <= n,
    ensures
        linked(doc, walk_from(doc_rows(doc), doc.head_id(), n)),
        distinct(walk_from(doc_rows(doc), doc.head_id(), n)),
{
    let rows = doc_rows(doc);
    let head = doc.head_id();
    let w = walk_from(rows, head, n + 1);
    lemma_walk(doc, lengths, head, n + 1);
    assert(distinct(w)) by {
        assert forall|i: int| 0 <= i < w.len() implies (#[trigger] w[i]).id > 0 by {
            lemma_walk_back(doc, lengths, n + 1, i);
        }
        assert forall|i: int, j: int| 0 <= i < j < w.len() implies (#[trigger] w[i]).id != (
        #[trigger] w[j]).id by {
            lemma_walk_distinct(doc, lengths, n + 1, i, j);
        }
    }
    lemma_pieces_fit(rows, w);
    lemma_walk_more(rows, head, n);
    assert(row_sound(doc, lengths, 0));
    assert(row_sound(doc, lengths, head));
    assert forall|i: int| 0 <= i < w.len() implies doc.at((#[trigger] w[i]).id) == Ok::<PieceRow, E>(
        row_in(doc.list_number, w, i),
    ) by {
        lemma_walk_back(doc, lengths, n + 1, i);
        assert(rows.contains_key(w[i].id));
        assert(row_sound(doc, lengths, w[i].id));
        if i == w.len() - 1 {
            let next = rows[w[i].id].next_id;
            assert(!rows.contains_key(next));
            assert(doc.at(next) is Err);
        } else {
            assert(rows[w[i].id].next_id == w[i + 1].id);
        }
    }
    if w.len() > 0 {
        let last = w.len() - 1;
        assert(rows.contains_key(w[last].id));
        assert(row_sound(doc, lengths, w[last].id));
        assert(doc.at(w[last].id) == Ok::<PieceRow, E>(row_in(doc.list_number, w, last)));
    }
}

/// A walk over the rows of a chain gives its pieces.
proof fn lemma_walk_chain<E>(doc: Doc<E>, pieces: Seq<Piece>, i: int, n: nat)
    requires
        is_linked(doc, pieces),
        doc.at(0) is Err,
        0 <= i <= pieces.len(),
        pieces.len() - i <= n,
    ensures
        walk_from(doc_rows(doc), id_at(pieces, i), n) == pieces.skip(i),
    decreases pieces.len() - i,
{
    let rows = doc_rows(doc);
    if i < pieces.len() {
        lemma_read_piece(doc, pieces, i);
        assert(rows.contains_key(pieces[i].id) && rows[pieces[i].id] == row_in(doc.list_number, pieces, i));
        lemma_walk_chain(doc, pieces, i + 1, (n - 1) as nat);
        assert(pieces.skip(i) =~= seq![pieces[i]] + pieces.skip(i + 1));
    } else {
        assert(pieces.skip(i) =~= Seq::empty());
    }
}

// ---------- lookups in a snapshot ----------

/// The rows of a buffer are those rows that lie in it, each once.
pub proof fn lemma_rows_in_buffer(rows: Seq<PieceRow>, b: i64)
    requires
        ids_differ(rows),
    ensures
        rows_in_buffer(rows, b).no_duplicates(),
        forall|id: i64| #[trigger]
            rows_in_buffer(rows, b).contains(id) <==> exists|i: int|
                0 <= i < rows.len() && (#[trigger] rows[i]).id == id && rows[i].coord.buffer_id == b,
    decreases rows.len(),
{
    if rows.len() > 0 {
        let rest = rows.drop_last();
        let last = rows.len() - 1;
        assert(ids_differ(rest)) by {
            assert forall|i: int, j: int| 0 <= i < j < rest.len() implies (#[trigger] rest[i]).id != (
            #[trigger] rest[j]).id by {
                assert(rows[i].id != rows[j].id);
            }
        }
        lemma_rows_in_buffer(rest, b);
        let before = rows_in_buffer(rest, b);
        let ids = rows_in_buffer(rows, b);
        assert(!before.contains(rows[last].id)) by {
            if before.contains(rows[last].id) {
                let i = choose|i: int|
                    0 <= i < rest.len() && (#[trigger] rest[i]).id == rows[last].id
                        && rest[i].coord.buffer_id == b;
                assert(rows[i].id != rows[last].id);
            }
        }
        assert forall|id: i64| #[trigger] ids.contains(id) <==> exists|i: int|
            0 <= i < rows.len() && (#[trigger] rows[i]).id == id && rows[i].coord.buffer_id == b by {
            if before.contains(id) {
                let i = choose|i: int|
                    0 <= i < rest.len() && (#[trigger] rest[i]).id == id && rest[i].coord.buffer_id == b;
                assert(rows[i].id == id);
                let k = choose|k: int| 0 <= k < before.len() && before[k] == id;
                assert(ids[k] == id);
            }
            if rows[last].coord.buffer_id == b {
                assert(ids[before.len() as int] == rows[last].id);
            }
            if exists|i: int|
                0 <= i < rows.len() && (#[trigger] rows[i]).id == id && rows[i].coord.buffer_id == b {
                let i = choose|i: int|
                    0 <= i < rows.len() && (#[trigger] rows[i]).id == id && rows[i].coord.buffer_id == b;
                if i < last {
                    assert(rest[i].id == id && rest[i].coord.buffer_id == b);
                    assert(before.contains(id));
                }
            }
        }
    }
}

/// In a snapshot without fault, rows from the head on make a chain, and a lookup
/// finds the rows of a buffer.
proof fn lemma_snapshot_chain(input: PlannerInput)
    requires
        snapshot_fault(input.pieces, input.buffers) is None,
        rows_apart(input.pieces.pieces@),
    ensures
        is_linked(snapshot_doc(input.pieces), from_head(input.pieces)),
        from_head(input.pieces).len() <= input.pieces.pieces@.len(),
        forall|b: i64| b > 0 ==> #[trigger] finds_apart(snapshot_doc(input.pieces), from_head(input.pieces), b),
        forall|i: int|
            0 <= i < from_head(input.pieces).len() ==> lengths_by_id(
                input.buffers.buffers@,
            ).contains_key((#[trigger] from_head(input.pieces)[i]).coord.buffer_id) && 0
                < from_head(input.pieces)[i].coord.buffer_id < input.buffers.pre_buffers_next_id,
{
    let pieces = input.pieces;
    let all = pieces.pieces@;
    let rows = rows_by_id(all);
    let lengths = lengths_by_id(input.buffers.buffers@);
    let doc = snapshot_doc(pieces);
    let w = from_head(pieces);
    lemma_snapshot_sound(pieces, input.buffers);
    lemma_valid_rows_differ(pieces.list_number, pieces.pre_piece_next_id, all);
    lemma_rows_by_id(all);
    lemma_rows_count(all);
    lemma_walk_linked(doc, lengths, all.len());
    lemma_walk(doc, lengths, pieces.head_id, all.len());
    assert forall|id: i64| #[trigger] rows.contains_key(id) implies lies_in(doc, rows[id].coord.buffer_id, id)
        && lengths.contains_key(rows[id].coord.buffer_id) && 0 < rows[id].coord.buffer_id
        < input.buffers.pre_buffers_next_id by {
        assert(doc.at(id) == Ok::<PieceRow, PlannerError>(rows[id]));
        assert(row_sound(doc, lengths, id));
        lemma_buffer_ids(
            input.buffers.pre_buffers_next_id,
            input.buffers.buffers@,
            rows[id].coord.buffer_id,
        );
    }
    assert forall|a: i64, b: i64| a != b && #[trigger] rows.contains_key(a) && #[trigger] rows.contains_key(
        b,
    ) implies apart(rows[a].coord, rows[b].coord) by {
        let i = choose|i: int| 0 <= i < all.len() && (#[trigger] all[i]).id == a;
        let j = choose|j: int| 0 <= j < all.len() && (#[trigger] all[j]).id == b;
        if i < j {
            assert(apart(all[i].coord, all[j].coord));
        } else {
            assert(apart(all[j].coord, all[i].coord));
        }
    }
    assert forall|i: int| 0 <= i < w.len() implies rows.contains_key((#[trigger] w[i]).id) && w[i].coord
        == rows[w[i].id].coord by {
        assert(doc_rows(doc).contains_key(w[i].id));
    }
    assert(disjoint(w)) by {
        assert forall|i: int, j: int| 0 <= i < j < w.len() implies apart(
            (#[trigger] w[i]).coord,
            (#[trigger] w[j]).coord,
        ) by {
            assert(w[i].id != w[j].id);
        }
    }
    assert(is_linked(doc, w)) by {
        reveal(is_linked);
        assert forall|id: i64| (#[trigger] doc.at(id)) is Ok implies id < doc.next_piece_id by {
            assert(row_sound(doc, lengths, id));
        }
        assert forall|id: i64| #[trigger] doc.loaded.contains(id) implies id < doc.next_piece_id by {
            assert(rows.contains_key(id));
            assert(row_sound(doc, lengths, id));
        }
    }
    assert forall|b: i64| b > 0 implies #[trigger] finds_apart(doc, w, b) by {
        lemma_rows_in_buffer(all, b);
        let ids = rows_in_buffer(all, b);
        assert((doc.candidates)(b) == Ok::<Seq<i64>, PlannerError>(ids));
        assert forall|k: int| 0 <= k < ids.len() implies lies_in(doc, b, #[trigger] ids[k])
            && rows.contains_key(ids[k]) by {
            assert(ids.contains(ids[k]));
            let i = choose|i: int|
                0 <= i < all.len() && (#[trigger] all[i]).id == ids[k] && all[i].coord.buffer_id == b;
            assert(rows.contains_key(all[i].id));
        }
        assert forall|k: int, l: int| 0 <= k < l < ids.len() implies apart(
            doc.at(#[trigger] ids[k])->Ok_0.coord,
            doc.at(#[trigger] ids[l])->Ok_0.coord,
        ) by {
            assert(ids[k] != ids[l]);
            assert(rows.contains_key(ids[k]) && rows.contains_key(ids[l]));
        }
        assert forall|j: int| 0 <= j < w.len() && (#[trigger] w[j]).coord.buffer_id == b implies ids.contains(
            w[j].id,
        ) by {
            assert(rows.contains_key(w[j].id));
            let i = choose|i: int| 0 <= i < all.len() && (#[trigger] all[i]).id == w[j].id;
            assert(all[i].coord.buffer_id == b);
        }
    }
}

/// If all its rows are reached from its head, a snapshot without fault is a chain
/// and holds nothing else.
pub proof fn law_snapshot_is_chain(input: PlannerInput)
    requires
        snapshot_fault(input.pieces, input.buffers) is None,
        rows_apart(input.pieces.pieces@),
        from_head(input.pieces).len() == input.pieces.pieces@.len(),
    ensures
        is_chain(snapshot_doc(input.pieces), from_head(input.pieces)),
        has_no_others(snapshot_doc(input.pieces), from_head(input.pieces)),
{
    let all = input.pieces.pieces@;
    let rows = rows_by_id(all);
    let doc = snapshot_doc(input.pieces);
    let w = from_head(input.pieces);
    lemma_snapshot_chain(input);
    lemma_valid_rows_differ(input.pieces.list_number, input.pieces.pre_piece_next_id, all);
    lemma_rows_by_id(all);
    lemma_rows_count(all);
    assert forall|i: int| 0 <= i < w.len() implies rows.contains_key((#[trigger] w[i]).id) && w[i].coord
        == rows[w[i].id].coord by {
        lemma_read_piece(doc, w, i);
    }
    assert(distinct(w)) by {
        reveal(is_linked);
    }
    lemma_all_reached(rows, w);
    assert forall|id: i64| (#[trigger] doc.at(id)) is Ok implies has_id(w, id) by {
        assert(rows.contains_key(id));
    }
    assert(indexed(doc, w)) by {
        reveal(indexed);
        assert forall|b: i64| b > 0 implies (#[trigger] (doc.candidates)(b) matches Ok(ids)
            && ids.no_duplicates() && forall|id: i64| #[trigger]
            ids.contains(id) == has_piece(w, id, b)) by {
            lemma_rows_in_buffer(all, b);
            let ids = rows_in_buffer(all, b);
            assert forall|id: i64| #[trigger] ids.contains(id) == has_piece(w, id, b) by {
                if ids.contains(id) {
                    let i = choose|i: int|
                        0 <= i < all.len() && (#[trigger] all[i]).id == id && all[i].coord.buffer_id == b;
                    assert(rows.contains_key(all[i].id));
                    assert(has_id(w, id));
                    let j = choose|j: int| 0 <= j < w.len() && (#[trigger] w[j]).id == id;
                    assert(w[j].coord.buffer_id == b);
                }
                if has_piece(w, id, b) {
                    let j = choose|j: int|
                        0 <= j < w.len() && (#[trigger] w[j]).id == id && w[j].coord.buffer_id == b;
                    assert(rows.contains_key(w[j].id));
                    let i = choose|i: int| 0 <= i < all.len() && (#[trigger] all[i]).id == id;
                    assert(all[i].coord.buffer_id == b);
                }
            }
        }
    }
}

/// As many pieces as there are rows are all of them.
proof fn lemma_all_reached(rows: Map<i64, PieceRow>, pieces: Seq<Piece>)
    requires
        rows.dom().finite(),
        rows.dom().len() <= pieces.len(),
        distinct(pieces),
        forall|i: int| 0 <= i < pieces.len() ==> rows.contains_key((#[trigger] pieces[i]).id),
    ensures
        forall|id: i64| #[trigger] rows.contains_key(id) ==> has_id(pieces, id),
{
    lemma_pieces_fit(rows, pieces);
    let ids = Seq::new(pieces.len(), |i: int| pieces[i].id);
    assert(ids.no_duplicates()) by {
        assert forall|i: int, j: int| 0 <= i < ids.len() && 0 <= j < ids.len() && i != j implies ids[i]
            != ids[j] by {
            assert(pieces[i].id != pieces[j].id);
        }
    }
    ids.unique_seq_to_set();
    assert forall|id: i64| ids.to_set().contains(id) implies rows.dom().contains(id) by {
        let i = choose|i: int| 0 <= i < ids.len() && ids[i] == id;
        assert(rows.contains_key(pieces[i].id));
    }
    vstd::set_lib::lemma_subset_equality(ids.to_set(), rows.dom());
    assert forall|id: i64| #[trigger] rows.contains_key(id) implies has_id(pieces, id) by {
        assert(ids.to_set().contains(id));
        let i = choose|i: int| 0 <= i < ids.len() && ids[i] == id;
        assert(pieces[i].id == id);
    }
}

// ---------- places ----------

/// The coordinate lies inside the `i`-th piece, a live one, or at its right edge,
/// and `p` bytes of the text come before it.
pub open spec fn names_in(pieces: Seq<Piece>, at: BufferCoord, p: int, i: int) -> bool {
    &&& 0 <= i < pieces.len()
    &&& !pieces[i].coord.tombstone
    &&& pieces[i].coord.buffer_id == at.buffer_id
    &&& pieces[i].coord.start_byte < at.byte_pos <= pieces[i].coord.end()
    &&& p == live_len(pieces, i) + at.byte_pos - pieces[i].coord.start_byte
}

/// The coordinate names the place `p` bytes into the text: the start of the
/// document is the one before its first byte, any other lies in a live piece or at
/// its right edge.
pub open spec fn names(pieces: Seq<Piece>, at: BufferCoord, p: int) -> bool {
    (p == 0 && at == BufferCoord::document_start()) || exists|i: int| names_in(pieces, at, p, i)
}

/// A place that is named is known, and found.
proof fn lemma_named<E>(doc: Doc<E>, pieces: Seq<Piece>, at: BufferCoord, p: int)
    requires
        is_linked(doc, pieces),
        forall|b: i64| b > 0 ==> #[trigger] finds_apart(doc, pieces, b),
        names(pieces, at, p),
    ensures
        knows(pieces, at),
        live_place(pieces, at) == p,
        at != BufferCoord::document_start() ==> finds(doc, pieces, at) && exists|i: int|
            0 <= i < pieces.len() && (#[trigger] pieces[i]).coord.buffer_id == at.buffer_id,
{
    lemma_chain_disjoint(doc, pieces);
    if !(p == 0 && at == BufferCoord::document_start()) {
        let i = choose|i: int| names_in(pieces, at, p, i);
        assert(whole(pieces[i].coord));
        assert(anchors(pieces, at, i));
        lemma_live_place(pieces, at, i);
        assert(finds_apart(doc, pieces, at.buffer_id));
        assert forall|j: int| #[trigger] anchors(pieces, at, j) implies pieces[j].coord.start_byte
            < at.byte_pos && !pieces[j].coord.tombstone by {
            lemma_anchor_unique(pieces, at, i, j);
        }
        lemma_finds_among(doc, pieces, at);
        assert(pieces[i].coord.buffer_id == at.buffer_id);
    }
}

// ---------- plans ----------

/// There are ids for what one operation adds.
pub open spec fn has_ids_for_one(input: PlannerInput) -> bool {
    &&& input.pieces.pre_piece_next_id < i64::MAX - 1
    &&& input.buffers.pre_buffers_next_id < i64::MAX
}

/// The text of a snapshot with a plan's output written is that of the plan's
/// document.
proof fn lemma_text_written(input: PlannerInput, after: PieceSnapshot, pieces: Seq<Piece>)
    requires
        plan(input) is Ok,
        pieces_written(input.pieces, plan(input)->Ok_0, after),
        is_linked(plan_end(input).doc, pieces),
    ensures
        from_head(after) == pieces,
{
    lemma_plan_kept(input);
    let end = plan_end(input);
    let doc = end.doc;
    let rows = rows_by_id(after.pieces@);
    let lengths = with_lengths(end.known, end.buffers);
    assert(rows == doc_rows(doc));
    lemma_rows_count(after.pieces@);
    assert(distinct(pieces) && linked(doc, pieces)) by {
        reveal(is_linked);
    }
    assert forall|i: int| 0 <= i < pieces.len() implies rows.contains_key((#[trigger] pieces[i]).id) by {
        assert(doc.at(pieces[i].id) is Ok);
    }
    lemma_pieces_fit(rows, pieces);
    assert(row_sound(doc, lengths, 0));
    lemma_walk_chain(doc, pieces, 0, after.pieces@.len());
    assert(pieces.skip(0) =~= pieces);
}

/// One insert at a coordinate that names a place in the text of a snapshot is
/// planned, and puts the new buffer's bytes there: what came before the place and
/// what came after it stay as they were.
pub proof fn law_plan_inserts_text(
    input: PlannerInput,
    at: BufferCoord,
    inserted: InsertedBufferManifest,
    p: int,
)
    requires
        snapshot_fault(input.pieces, input.buffers) is None,
        rows_apart(input.pieces.pieces@),
        has_ids_for_one(input),
        input.envelope.edit.ops@ == seq![PieceTextEditItemManifest::Insert { at, inserted }],
        0 < inserted.len_bytes <= MAX_BUFFER_LEN_BYTES,
        names(from_head(input.pieces), at, p),
    ensures
        plan(input) is Ok,
        forall|after: PieceSnapshot| #[trigger]
            pieces_written(input.pieces, plan(input)->Ok_0, after) ==> snapshot_text(after) == spliced(
                snapshot_text(input.pieces),
                p,
                bytes_of(whole_buffer(input.buffers.pre_buffers_next_id, inserted.len_bytes)),
            ),
        plan(input)->Ok_0.buffer_inserts == seq![
            BufferInsertView {
                new_id: input.buffers.pre_buffers_next_id,
                owner: input.envelope.address@,
                author_id: input.author_id,
                len_bytes: inserted.len_bytes,
                ciphertext_value_hash: inserted.ciphertext_value_hash,
            },
        ],
{
    let pieces = from_head(input.pieces);
    let start = plan_start(input);
    let ops = input.envelope.edit.ops@;
    let coord = whole_buffer(input.buffers.pre_buffers_next_id, inserted.len_bytes);
    lemma_snapshot_chain(input);
    lemma_named(start.doc, pieces, at, p);
    assert(is_fresh(pieces, coord)) by {
        assert forall|j: int| 0 <= j < pieces.len() implies apart((#[trigger] pieces[j]).coord, coord) by {
            assert(pieces[j].coord.buffer_id < input.buffers.pre_buffers_next_id);
        }
    }
    lemma_insert_splices_text(start.doc, pieces, at, coord);
    reveal(PlanState::step);
    assert(ops.drop_last() =~= Seq::empty());
    assert(start.steps(ops.drop_last()) == (start, Ok::<(), PlannerError>(())));
    assert(start.steps(ops) == start.step(0, ops[0]));
    let done = insert_piece(start.doc, at, coord).0;
    assert(plan_end(input).doc == done);
    assert(plan(input)->Ok_0.buffer_inserts =~= plan_end(input).buffers);
    let chain = inserted_chain(pieces, input.pieces.pre_piece_next_id, at, coord);
    assert forall|after: PieceSnapshot| #[trigger]
        pieces_written(input.pieces, plan(input)->Ok_0, after) implies snapshot_text(after) == spliced(
        snapshot_text(input.pieces),
        p,
        bytes_of(coord),
    ) by {
        lemma_text_written(input, after, chain);
    }
}

/// One deletion between two coordinates that name places in the text of a
/// snapshot is planned, takes the text between them out and leaves all other text
/// as it was. It adds no buffer.
pub proof fn law_plan_deletes_text(
    input: PlannerInput,
    start: BufferCoord,
    end: BufferCoord,
    p: int,
    q: int,
)
    requires
        snapshot_fault(input.pieces, input.buffers) is None,
        rows_apart(input.pieces.pieces@),
        has_ids_for_one(input),
        input.envelope.edit.ops@ == seq![PieceTextEditItemManifest::Delete { start, end }],
        names(from_head(input.pieces), start, p),
        names(from_head(input.pieces), end, q),
        p <= q,
    ensures
        plan(input) is Ok,
        forall|after: PieceSnapshot| #[trigger]
            pieces_written(input.pieces, plan(input)->Ok_0, after) ==> snapshot_text(after) == cut_out(
                snapshot_text(input.pieces),
                p,
                q,
            ),
        plan(input)->Ok_0.buffer_inserts == Seq::<BufferInsertView>::empty(),
{
    let pieces = from_head(input.pieces);
    let state = plan_start(input);
    let ops = input.envelope.edit.ops@;
    lemma_snapshot_chain(input);
    lemma_named(state.doc, pieces, start, p);
    lemma_named(state.doc, pieces, end, q);
    lemma_delete_cuts_text(state.doc, pieces, start, end);
    reveal(PlanState::step);
    assert(ops.drop_last() =~= Seq::empty());
    assert(state.steps(ops.drop_last()) == (state, Ok::<(), PlannerError>(())));
    assert(state.steps(ops) == state.step(0, ops[0]));
    let done = delete_text(state.doc, start, end).0;
    assert(plan_end(input).doc == done);
    let chain = deleted_chain(pieces, input.pieces.pre_piece_next_id, start, end);
    assert forall|after: PieceSnapshot| #[trigger]
        pieces_written(input.pieces, plan(input)->Ok_0, after) implies snapshot_text(after) == cut_out(
        snapshot_text(input.pieces),
        p,
        q,
    ) by {
        lemma_text_written(input, after, chain);
    }
}

} // verus!
