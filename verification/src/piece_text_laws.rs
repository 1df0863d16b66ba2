//! What inserts and deletions do to the text of a document.

use vstd::prelude::*;

use crate::faults::{EditFault, WalkKind};
use crate::piece_text::{BufferCoord, PieceCoord};
use crate::piece_text_chain::{
    anchors, apart, bytes_of, cut_out, disjoint, history, id_at, is_chain, is_linked, knows,
    laid_out, lemma_layout_at, lemma_layout_concat, lemma_layout_deleted, lemma_layout_one,
    live_len, live_offset, live_place, row_in, shown, spliced, stays_chain, text, whole, BytePlace,
    Piece,
};
use crate::piece_text_chain_splices::{
    cut_piece, dead_coord, is_fresh, lemma_cut_row, lemma_insert_after, lemma_insert_at_head,
    lemma_split_row, lemma_tombstone_row, split_piece, with_coord,
};
use crate::piece_text_chain_walks::{
    finds, first_live, intact, last_live, lemma_anchor_unique, lemma_chain_disjoint,
    lemma_chain_ends, lemma_chain_len, lemma_endpoint_intact, lemma_finds, lemma_first_live,
    lemma_first_live_row, lemma_found, lemma_ids_differ, lemma_intact_chain, lemma_intact_then,
    lemma_last_live, lemma_last_live_row, lemma_live_after, lemma_live_before, lemma_precedes,
    lemma_read_piece, lemma_resolve, lemma_step_backward, lemma_step_forward, lemma_still_finds,
};
use crate::piece_text_edit::{
    canonical_pos, delete_between, delete_edges, delete_end, delete_first, delete_in_row,
    delete_last, delete_rows, delete_start, delete_text, first_edge, insert_piece, is_extreme,
    last_edge, left_part, live_after, live_before, position_order, resolve_coord, right_part,
    step_backward, step_forward, tombstone_row, DeletePos, EdgeRow, PosOrder,
};
use crate::piece_text_planner::{PieceRow, ResolvePurpose};
use crate::piece_text_resolution::{Doc, EditError, ResolveEndpoint};

verus! {

// ---------- places ----------

proof fn lemma_live_len_step(pieces: Seq<Piece>, i: int)
    requires
        0 <= i < pieces.len(),
    ensures
        live_len(pieces, i + 1) == live_len(pieces, i) + (if pieces[i].coord.tombstone {
            0
        } else {
            pieces[i].coord.len_bytes as int
        }),
{
    lemma_layout_at(pieces, i, false);
}

proof fn lemma_live_len_grows(pieces: Seq<Piece>, i: int, j: int)
    requires
        0 <= i <= j <= pieces.len(),
    ensures
        live_len(pieces, i) <= live_len(pieces, j),
    decreases j - i,
{
    if i < j {
        lemma_live_len_step(pieces, j - 1);
        lemma_live_len_grows(pieces, i, j - 1);
    }
}

proof fn lemma_live_len_ends(pieces: Seq<Piece>)
    ensures
        live_len(pieces, 0) == 0,
        live_len(pieces, pieces.len() as int) == text(pieces).len(),
{
    assert(pieces.take(0) =~= Seq::empty());
    assert(pieces.take(pieces.len() as int) =~= pieces);
}

pub proof fn lemma_live_place(pieces: Seq<Piece>, at: BufferCoord, i: int)
    requires
        disjoint(pieces),
        at != BufferCoord::document_start(),
        anchors(pieces, at, i),
    ensures
        live_place(pieces, at) == live_len(pieces, i) + live_offset(pieces, at, i),
        0 <= live_place(pieces, at) <= text(pieces).len(),
{
    let j = choose|j: int| anchors(pieces, at, j);
    lemma_anchor_unique(pieces, at, i, j);
    lemma_live_len_step(pieces, i);
    lemma_live_len_grows(pieces, i + 1, pieces.len() as int);
    lemma_live_len_ends(pieces);
}

/// A known coordinate has a place in the text.
pub proof fn lemma_place_in_text<E>(doc: Doc<E>, pieces: Seq<Piece>, at: BufferCoord)
    requires
        is_linked(doc, pieces),
        knows(pieces, at),
    ensures
        0 <= live_place(pieces, at) <= text(pieces).len(),
{
    if at != BufferCoord::document_start() {
        lemma_chain_disjoint(doc, pieces);
        let i = choose|i: int| anchors(pieces, at, i);
        lemma_live_place(pieces, at, i);
    }
}

// ---------- inserts ----------

proof fn lemma_layout_insert(pieces: Seq<Piece>, p: int, piece: Piece, deleted: bool)
    requires
        0 <= p <= pieces.len(),
    ensures
        laid_out(pieces.insert(p, piece), deleted) == spliced(
            laid_out(pieces, deleted),
            laid_out(pieces.take(p), deleted).len() as int,
            shown(piece, deleted),
        ),
{
    let one = seq![piece];
    let a = pieces.take(p);
    let b = pieces.skip(p);
    assert(pieces =~= a + b);
    assert(pieces.insert(p, piece) =~= (a + one) + b);
    lemma_layout_concat(a, b, deleted);
    lemma_layout_concat(a, one, deleted);
    lemma_layout_concat(a + one, b, deleted);
    lemma_layout_one(piece, deleted);
    let whole_text = laid_out(pieces, deleted);
    let n = laid_out(a, deleted).len() as int;
    assert(whole_text.take(n) =~= laid_out(a, deleted));
    assert(whole_text.skip(n) =~= laid_out(b, deleted));
    assert(laid_out(pieces.insert(p, piece), deleted) =~= spliced(whole_text, n, shown(piece, deleted)));
}

/// The bytes of a range are those of its first part and those of the rest.
proof fn lemma_parts(coord: PieceCoord, k: u32, a: bool, b: bool)
    requires
        k <= coord.len_bytes,
        coord.end() <= u32::MAX,
    ensures
        bytes_of(left_part(coord, k, a)) == bytes_of(coord).take(k as int),
        bytes_of(right_part(coord, k, b)) == bytes_of(coord).skip(k as int),
        bytes_of(left_part(coord, k, a)) + bytes_of(right_part(coord, k, b)) == bytes_of(coord),
{
    assert(bytes_of(left_part(coord, k, a)) =~= bytes_of(coord).take(k as int));
    assert(bytes_of(right_part(coord, k, b)) =~= bytes_of(coord).skip(k as int));
    assert(bytes_of(coord).take(k as int) + bytes_of(coord).skip(k as int) =~= bytes_of(coord));
}

/// A chain with a piece replaced by others.
pub open spec fn replaced(pieces: Seq<Piece>, i: int, parts: Seq<Piece>) -> Seq<Piece> {
    pieces.take(i) + parts + pieces.skip(i + 1)
}

proof fn lemma_layout_replaced(pieces: Seq<Piece>, i: int, parts: Seq<Piece>, deleted: bool)
    requires
        0 <= i < pieces.len(),
    ensures
        laid_out(replaced(pieces, i, parts), deleted) == laid_out(pieces.take(i), deleted) + laid_out(
            parts,
            deleted,
        ) + laid_out(pieces.skip(i + 1), deleted),
{
    lemma_layout_concat(pieces.take(i), parts, deleted);
    lemma_layout_concat(pieces.take(i) + parts, pieces.skip(i + 1), deleted);
}

proof fn lemma_layout_two(a: Piece, b: Piece, deleted: bool)
    ensures
        laid_out(seq![a, b], deleted) == shown(a, deleted) + shown(b, deleted),
{
    assert(seq![a, b] =~= seq![a] + seq![b]);
    lemma_layout_concat(seq![a], seq![b], deleted);
    lemma_layout_one(a, deleted);
    lemma_layout_one(b, deleted);
}

proof fn lemma_layout_three(a: Piece, b: Piece, c: Piece, deleted: bool)
    ensures
        laid_out(seq![a, b, c], deleted) == shown(a, deleted) + shown(b, deleted) + shown(c, deleted),
{
    assert(seq![a, b, c] =~= seq![a, b] + seq![c]);
    lemma_layout_concat(seq![a, b], seq![c], deleted);
    lemma_layout_two(a, b, deleted);
    lemma_layout_one(c, deleted);
}

/// The pieces that a parted piece becomes.
proof fn lemma_layout_split(
    pieces: Seq<Piece>,
    i: int,
    k: u32,
    middle: Piece,
    right_id: i64,
    deleted: bool,
)
    requires
        0 <= i < pieces.len(),
        k <= pieces[i].coord.len_bytes,
        pieces[i].coord.end() <= u32::MAX,
        !pieces[i].coord.tombstone,
    ensures
        laid_out(
            split_piece(
                pieces,
                i,
                left_part(pieces[i].coord, k, false),
                middle,
                Piece { id: right_id, coord: right_part(pieces[i].coord, k, false) },
            ),
            deleted,
        ) == spliced(
            laid_out(pieces, deleted),
            laid_out(pieces.take(i), deleted).len() + k,
            shown(middle, deleted),
        ),
{
    let coord = pieces[i].coord;
    let left = Piece { id: pieces[i].id, coord: left_part(coord, k, false) };
    let right = Piece { id: right_id, coord: right_part(coord, k, false) };
    let after = split_piece(pieces, i, left.coord, middle, right);
    let parts = seq![left, middle, right];
    assert(after =~= replaced(pieces, i, parts));
    lemma_layout_replaced(pieces, i, parts, deleted);
    lemma_layout_three(left, middle, right, deleted);
    lemma_layout_at(pieces, i, deleted);
    lemma_parts(coord, k, false, false);
    let t = laid_out(pieces, deleted);
    let p = laid_out(pieces.take(i), deleted).len() + k;
    assert(t.take(p as int) =~= laid_out(pieces.take(i), deleted) + bytes_of(left.coord));
    assert(t.skip(p as int) =~= bytes_of(right.coord) + laid_out(pieces.skip(i + 1), deleted));
    assert(laid_out(after, deleted) =~= spliced(t, p as int, shown(middle, deleted)));
}

/// There are ids for the rows that one operation adds.
pub open spec fn has_ids<E>(doc: Doc<E>) -> bool {
    doc.next_piece_id < i64::MAX - 1
}

/// The document has room for what one more edit adds, and a walk over all its
/// deleted rows can be counted.
pub open spec fn has_room<E>(doc: Doc<E>, pieces: Seq<Piece>) -> bool {
    pieces.len() < u32::MAX - 1 && has_ids(doc)
}

/// What was written before is still there, in its order, with `what` among it.
pub open spec fn history_with(before: Seq<BytePlace>, after: Seq<BytePlace>, what: Seq<BytePlace>) -> bool {
    exists|place: int| 0 <= place <= before.len() && after == #[trigger] spliced(before, place, what)
}

/// The chain with a piece inserted at a known coordinate. The piece takes the
/// next free id; a piece that is parted for it takes one more.
pub open spec fn inserted_chain(
    pieces: Seq<Piece>,
    next_id: i64,
    at: BufferCoord,
    coord: PieceCoord,
) -> Seq<Piece> {
    let new = Piece { id: next_id, coord };
    if at == BufferCoord::document_start() {
        pieces.insert(0, new)
    } else {
        let i = choose|i: int| anchors(pieces, at, i);
        let found = pieces[i].coord;
        let k = (at.byte_pos - found.start_byte) as u32;
        if found.tombstone {
            pieces.insert(last_live(pieces, i + 1) + 1, new)
        } else if k == found.len_bytes {
            pieces.insert(i + 1, new)
        } else if k == 0 {
            pieces.insert(i, new)
        } else {
            split_piece(
                pieces,
                i,
                left_part(found, k, false),
                new,
                Piece { id: (next_id + 1) as i64, coord: right_part(found, k, false) },
            )
        }
    }
}

/// An insert at a known coordinate puts its bytes into the text at the place of
/// the coordinate, and leaves all other text as it was. Nothing of what was ever
/// written is lost.
pub proof fn law_insert_splices_text<E>(
    doc: Doc<E>,
    pieces: Seq<Piece>,
    at: BufferCoord,
    coord: PieceCoord,
)
    requires
        is_chain(doc, pieces),
        has_room(doc, pieces),
        is_fresh(pieces, coord),
        !coord.tombstone,
        knows(pieces, at),
    ensures
        ({
            let (d, r) = insert_piece(doc, at, coord);
            let after = inserted_chain(pieces, doc.next_piece_id, at, coord);
            &&& r is Ok
            &&& is_chain(d, after)
            &&& text(after) == spliced(text(pieces), live_place(pieces, at), bytes_of(coord))
            &&& history_with(history(pieces), history(after), bytes_of(coord))
            &&& d.next_piece_id - doc.next_piece_id == after.len() - pieces.len()
            &&& pieces.len() < after.len() <= pieces.len() + 2
        }),
{
    if at != BufferCoord::document_start() {
        lemma_finds(doc, pieces, at);
    }
    lemma_insert_splices_text(doc, pieces, at, coord);
}

/// An insert at a known coordinate that the document finds.
pub proof fn lemma_insert_splices_text<E>(
    doc: Doc<E>,
    pieces: Seq<Piece>,
    at: BufferCoord,
    coord: PieceCoord,
)
    requires
        is_linked(doc, pieces),
        has_ids(doc),
        is_fresh(pieces, coord),
        !coord.tombstone,
        knows(pieces, at),
        at != BufferCoord::document_start() ==> finds(doc, pieces, at),
    ensures
        ({
            let (d, r) = insert_piece(doc, at, coord);
            let after = inserted_chain(pieces, doc.next_piece_id, at, coord);
            &&& r is Ok
            &&& stays_chain(doc, pieces, d, after)
            &&& text(after) == spliced(text(pieces), live_place(pieces, at), bytes_of(coord))
            &&& history_with(history(pieces), history(after), bytes_of(coord))
            &&& d.next_piece_id - doc.next_piece_id == after.len() - pieces.len()
            &&& pieces.len() < after.len() <= pieces.len() + 2
        }),
{
    let new = Piece { id: doc.next_piece_id, coord };
    if at == BufferCoord::document_start() {
        lemma_chain_ends(doc, pieces);
        let d1 = doc.after_endpoint(ResolveEndpoint::Head);
        lemma_endpoint_intact(doc, ResolveEndpoint::Head);
        lemma_intact_chain(doc, d1, pieces);
        lemma_insert_at_head(d1, pieces, coord);
        lemma_put_text(pieces, 0, new);
        lemma_live_len_ends(pieces);
    } else {
        let i = choose|i: int| anchors(pieces, at, i);
        lemma_chain_disjoint(doc, pieces);
        lemma_live_place(pieces, at, i);
        lemma_read_piece(doc, pieces, i);
        lemma_found(doc, pieces, at, ResolvePurpose::InsertAnchor, i);
        let d1 = resolve_coord(doc, at, ResolvePurpose::InsertAnchor).0;
        lemma_intact_chain(doc, d1, pieces);
        lemma_live_len_step(pieces, i);
        lemma_live_len_ends(pieces);
        if pieces[i].coord.tombstone {
            lemma_last_live(pieces, i + 1);
            let j = last_live(pieces, i + 1);
            lemma_put_text(pieces, j + 1, new);
            if j >= 0 {
                lemma_insert_after(d1, pieces, j, coord);
            } else {
                lemma_insert_at_head(d1, pieces, coord);
            }
        } else {
            let k = (at.byte_pos - pieces[i].coord.start_byte) as u32;
            if k == pieces[i].coord.len_bytes {
                lemma_insert_after(d1, pieces, i, coord);
                lemma_put_text(pieces, i + 1, new);
            } else if k == 0 {
                lemma_step_backward(d1, pieces, i);
                let d2 = step_backward(d1, row_in(doc.list_number, pieces, i)).0;
                lemma_intact_chain(d1, d2, pieces);
                lemma_put_text(pieces, i, new);
                if i == 0 {
                    lemma_insert_at_head(d2, pieces, coord);
                } else {
                    lemma_insert_after(d2, pieces, i - 1, coord);
                }
            } else {
                lemma_fresh_apart(pieces, i, k, coord);
                lemma_split_row(d1, pieces, i, k, k, coord);
                let right_id = (doc.next_piece_id + 1) as i64;
                lemma_layout_split(pieces, i, k, new, right_id, false);
                lemma_layout_split(pieces, i, k, new, right_id, true);
                lemma_layout_at(pieces, i, true);
                let after = inserted_chain(pieces, doc.next_piece_id, at, coord);
                let place = laid_out(pieces.take(i), true).len() + k;
                assert(history(after) == spliced(history(pieces), place as int, bytes_of(coord)));
            }
        }
    }
}

/// The text and the history of a chain with a new live piece put in.
proof fn lemma_put_text(pieces: Seq<Piece>, p: int, piece: Piece)
    requires
        0 <= p <= pieces.len(),
        !piece.coord.tombstone,
    ensures
        text(pieces.insert(p, piece)) == spliced(
            text(pieces),
            live_len(pieces, p),
            bytes_of(piece.coord),
        ),
        history_with(history(pieces), history(pieces.insert(p, piece)), bytes_of(piece.coord)),
{
    lemma_layout_insert(pieces, p, piece, false);
    lemma_layout_insert(pieces, p, piece, true);
    let a = pieces.take(p);
    lemma_layout_concat(a, pieces.skip(p), true);
    assert(a + pieces.skip(p) =~= pieces);
    let place = history(a).len() as int;
    assert(history(pieces.insert(p, piece)) == spliced(history(pieces), place, bytes_of(piece.coord)));
}

/// A range apart from a piece is apart from its parts.
proof fn lemma_fresh_apart(pieces: Seq<Piece>, i: int, k: u32, coord: PieceCoord)
    requires
        is_fresh(pieces, coord),
        0 <= i < pieces.len(),
        whole(pieces[i].coord),
        0 < k < pieces[i].coord.len_bytes,
    ensures
        apart(left_part(pieces[i].coord, k, pieces[i].coord.tombstone), coord),
        apart(coord, right_part(pieces[i].coord, k, pieces[i].coord.tombstone)),
{
    assert(apart(pieces[i].coord, coord));
}

// ---------- delete positions ----------

/// The position is the one `p` bytes into the text, in its one form.
pub open spec fn at_place(pieces: Seq<Piece>, pos: DeletePos, p: int) -> bool {
    match pos {
        DeletePos::BeforeHead => p == 0,
        DeletePos::AfterTail => p == text(pieces).len(),
        DeletePos::InRow { row_id, k } => exists|i: int|
            {
                &&& 0 <= i < pieces.len()
                &&& (#[trigger] pieces[i]).id == row_id
                &&& !pieces[i].coord.tombstone
                &&& 0 < k <= pieces[i].coord.len_bytes
                &&& p == live_len(pieces, i) + k
                &&& p < text(pieces).len()
            },
    }
}

proof fn lemma_canonical<E>(doc: Doc<E>, pieces: Seq<Piece>, i: int, k: u32)
    requires
        is_linked(doc, pieces),
        0 <= i < pieces.len(),
        !pieces[i].coord.tombstone,
        k <= pieces[i].coord.len_bytes,
    ensures
        intact(doc, canonical_pos(doc, pieces[i].id, k).0),
        canonical_pos(doc, pieces[i].id, k).1 matches Ok(pos) && at_place(
            pieces,
            pos,
            live_len(pieces, i) + k,
        ),
{
    let cap = doc.next_piece_id as int;
    lemma_chain_len(doc, pieces);
    lemma_read_piece(doc, pieces, i);
    lemma_live_len_step(pieces, i);
    lemma_live_len_grows(pieces, i + 1, pieces.len() as int);
    lemma_live_len_ends(pieces);
    let d = doc.read(pieces[i].id).0;
    let row = row_in(doc.list_number, pieces, i);
    if k == 0 {
        lemma_live_before(d, pieces, i, 0, cap, WalkKind::Canonical);
        lemma_intact_then(doc, d, live_before(d, row, 0, cap, WalkKind::Canonical).0);
        lemma_last_live(pieces, i);
        let j = last_live(pieces, i);
        if j >= 0 {
            lemma_live_len_step(pieces, j);
            lemma_read_piece(doc, pieces, j);
            assert(pieces[j].id == pieces[j].id);
        }
    } else if k == row.coord.len_bytes {
        lemma_live_after(d, pieces, i, 0, cap, WalkKind::Canonical);
        lemma_intact_then(doc, d, live_after(d, row, 0, cap, WalkKind::Canonical).0);
        lemma_first_live(pieces, i + 1);
        let j = first_live(pieces, i + 1);
        if j < pieces.len() {
            lemma_live_len_step(pieces, j);
            lemma_live_len_grows(pieces, j + 1, pieces.len() as int);
            lemma_read_piece(doc, pieces, j);
        }
    }
}

/// Where a deletion starts or ends: at the place of its coordinate.
proof fn lemma_delete_start<E>(doc: Doc<E>, pieces: Seq<Piece>, at: BufferCoord)
    requires
        is_linked(doc, pieces),
        has_ids(doc),
        knows(pieces, at),
        at != BufferCoord::document_start() ==> finds(doc, pieces, at),
    ensures
        intact(doc, delete_start(doc, at).0),
        delete_start(doc, at).1 matches Ok(pos) && at_place(pieces, pos, live_place(pieces, at)),
{
    if at == BufferCoord::document_start() {
        lemma_chain_ends(doc, pieces);
        lemma_endpoint_intact(doc, ResolveEndpoint::Head);
    } else {
        let i = choose|i: int| anchors(pieces, at, i);
        lemma_chain_disjoint(doc, pieces);
        lemma_live_place(pieces, at, i);
        lemma_read_piece(doc, pieces, i);
        lemma_found(doc, pieces, at, ResolvePurpose::DeleteStart, i);
        let d = resolve_coord(doc, at, ResolvePurpose::DeleteStart).0;
        lemma_intact_chain(doc, d, pieces);
        lemma_live_len_step(pieces, i);
        if pieces[i].coord.tombstone {
            lemma_first_live(pieces, i);
            let j = first_live(pieces, i);
            if j < pieces.len() {
                lemma_canonical(d, pieces, j, 0);
                lemma_intact_then(doc, d, canonical_pos(d, pieces[j].id, 0).0);
            }
        } else {
            let k = (at.byte_pos - pieces[i].coord.start_byte) as u32;
            lemma_canonical(d, pieces, i, k);
            lemma_intact_then(doc, d, canonical_pos(d, pieces[i].id, k).0);
        }
    }
}

proof fn lemma_delete_end<E>(doc: Doc<E>, pieces: Seq<Piece>, at: BufferCoord)
    requires
        is_linked(doc, pieces),
        has_ids(doc),
        knows(pieces, at),
        at != BufferCoord::document_start() ==> finds(doc, pieces, at),
    ensures
        intact(doc, delete_end(doc, at).0),
        delete_end(doc, at).1 matches Ok(pos) && at_place(pieces, pos, live_place(pieces, at)),
{
    if at == BufferCoord::document_start() {
        lemma_chain_ends(doc, pieces);
        lemma_endpoint_intact(doc, ResolveEndpoint::Head);
    } else {
        let i = choose|i: int| anchors(pieces, at, i);
        lemma_chain_disjoint(doc, pieces);
        lemma_live_place(pieces, at, i);
        lemma_read_piece(doc, pieces, i);
        lemma_found(doc, pieces, at, ResolvePurpose::DeleteEnd, i);
        let d = resolve_coord(doc, at, ResolvePurpose::DeleteEnd).0;
        lemma_intact_chain(doc, d, pieces);
        lemma_live_len_step(pieces, i);
        if pieces[i].coord.tombstone {
            lemma_last_live(pieces, i + 1);
            let j = last_live(pieces, i + 1);
            if j >= 0 {
                lemma_read_piece(d, pieces, j);
                let d2 = d.read(pieces[j].id).0;
                let k = pieces[j].coord.len_bytes;
                lemma_canonical(d2, pieces, j, k);
                lemma_live_len_step(pieces, j);
                lemma_intact_then(doc, d, d2);
                lemma_intact_then(doc, d2, canonical_pos(d2, pieces[j].id, k).0);
            }
        } else {
            let k = (at.byte_pos - pieces[i].coord.start_byte) as u32;
            lemma_canonical(d, pieces, i, k);
            lemma_intact_then(doc, d, canonical_pos(d, pieces[i].id, k).0);
        }
    }
}

/// Whether the text is empty shows in the first live piece.
proof fn lemma_text_empty<E>(doc: Doc<E>, pieces: Seq<Piece>)
    requires
        is_linked(doc, pieces),
    ensures
        (first_live(pieces, 0) == pieces.len()) == (text(pieces).len() == 0),
{
    lemma_first_live(pieces, 0);
    lemma_live_len_ends(pieces);
    let j = first_live(pieces, 0);
    if j < pieces.len() {
        lemma_read_piece(doc, pieces, j);
        lemma_live_len_step(pieces, j);
        lemma_live_len_grows(pieces, j + 1, pieces.len() as int);
    }
}

pub open spec fn order_of(p: int, q: int) -> PosOrder {
    if p < q {
        PosOrder::Less
    } else if p == q {
        PosOrder::Equal
    } else {
        PosOrder::Greater
    }
}

/// Positions are ordered as their places.
proof fn lemma_position_order<E>(
    doc: Doc<E>,
    pieces: Seq<Piece>,
    a: DeletePos,
    p: int,
    b: DeletePos,
    q: int,
)
    requires
        is_linked(doc, pieces),
        at_place(pieces, a, p),
        at_place(pieces, b, q),
    ensures
        intact(doc, position_order(doc, a, b).0),
        position_order(doc, a, b).1 == Ok::<PosOrder, EditError<E>>(order_of(p, q)),
{
    assert(intact(doc, doc)) by {
        reveal(intact);
    }
    lemma_live_len_ends(pieces);
    if is_extreme(a) && is_extreme(b) {
        lemma_first_live_row(doc, pieces);
        lemma_text_empty(doc, pieces);
        lemma_first_live(pieces, 0);
    } else {
        match (a, b) {
            (DeletePos::InRow { row_id: r1, k: k1 }, DeletePos::InRow { row_id: r2, k: k2 }) => {
                let i = choose|i: int|
                    {
                        &&& 0 <= i < pieces.len()
                        &&& (#[trigger] pieces[i]).id == r1
                        &&& !pieces[i].coord.tombstone
                        &&& 0 < k1 <= pieces[i].coord.len_bytes
                        &&& p == live_len(pieces, i) + k1
                        &&& p < text(pieces).len()
                    };
                let j = choose|j: int|
                    {
                        &&& 0 <= j < pieces.len()
                        &&& (#[trigger] pieces[j]).id == r2
                        &&& !pieces[j].coord.tombstone
                        &&& 0 < k2 <= pieces[j].coord.len_bytes
                        &&& q == live_len(pieces, j) + k2
                        &&& q < text(pieces).len()
                    };
                lemma_live_len_step(pieces, i);
                lemma_live_len_step(pieces, j);
                if i < j {
                    lemma_ids_differ(doc, pieces, i, j);
                    lemma_precedes(doc, pieces, i, j);
                    lemma_live_len_grows(pieces, i + 1, j);
                } else if j < i {
                    lemma_ids_differ(doc, pieces, i, j);
                    lemma_precedes(doc, pieces, i, j);
                    lemma_live_len_grows(pieces, j + 1, i);
                }
            },
            _ => {},
        }
    }
}

// ---------- edges ----------

/// The place `p` is `k` bytes into the `i`-th piece, which is live.
pub open spec fn is_place(pieces: Seq<Piece>, i: int, k: int, p: int) -> bool {
    &&& 0 <= i < pieces.len()
    &&& !pieces[i].coord.tombstone
    &&& 0 <= k <= pieces[i].coord.len_bytes
    &&& p == live_len(pieces, i) + k
}

/// The first row of a deletion from `p` on, and how much of it stays.
proof fn lemma_first_edge<E>(doc: Doc<E>, pieces: Seq<Piece>, start: DeletePos, p: int) -> (r: (
    int,
    u32,
))
    requires
        is_linked(doc, pieces),
        at_place(pieces, start, p),
        p < text(pieces).len(),
    ensures
        is_place(pieces, r.0, r.1 as int, p),
        r.1 < pieces[r.0].coord.len_bytes,
        intact(doc, first_edge(doc, start).0),
        first_edge(doc, start).1 == Ok::<EdgeRow, EditError<E>>(
            if r.1 == 0 {
                EdgeRow::Whole(Some(pieces[r.0].id))
            } else {
                EdgeRow::Ragged { row_id: pieces[r.0].id, k: r.1 }
            },
        ),
{
    match start {
        DeletePos::InRow { row_id, k } => {
            let i = choose|i: int|
                {
                    &&& 0 <= i < pieces.len()
                    &&& (#[trigger] pieces[i]).id == row_id
                    &&& !pieces[i].coord.tombstone
                    &&& 0 < k <= pieces[i].coord.len_bytes
                    &&& p == live_len(pieces, i) + k
                    &&& p < text(pieces).len()
                };
            lemma_read_piece(doc, pieces, i);
            let d = doc.read(pieces[i].id).0;
            if k == pieces[i].coord.len_bytes {
                let cap = doc.next_piece_id as int;
                lemma_chain_len(doc, pieces);
                lemma_live_after(d, pieces, i, 0, cap, WalkKind::NextLive);
                lemma_intact_then(
                    doc,
                    d,
                    live_after(
                        d,
                        row_in(doc.list_number, pieces, i),
                        0,
                        cap,
                        WalkKind::NextLive,
                    ).0,
                );
                lemma_first_live(pieces, i + 1);
                lemma_live_len_step(pieces, i);
                let j = first_live(pieces, i + 1);
                lemma_read_piece(doc, pieces, j);
                (j, 0u32)
            } else {
                (i, k)
            }
        },
        _ => {
            lemma_first_live_row(doc, pieces);
            lemma_text_empty(doc, pieces);
            lemma_first_live(pieces, 0);
            lemma_live_len_ends(pieces);
            let j = first_live(pieces, 0);
            lemma_read_piece(doc, pieces, j);
            (j, 0u32)
        },
    }
}

/// The last row of a deletion up to `q`, and how much of it goes.
proof fn lemma_last_edge<E>(doc: Doc<E>, pieces: Seq<Piece>, end: DeletePos, q: int) -> (r: (int, u32))
    requires
        is_linked(doc, pieces),
        at_place(pieces, end, q),
        0 < q,
    ensures
        is_place(pieces, r.0, r.1 as int, q),
        0 < r.1,
        intact(doc, last_edge(doc, end).0),
        last_edge(doc, end).1 == Ok::<EdgeRow, EditError<E>>(
            if r.1 == pieces[r.0].coord.len_bytes {
                EdgeRow::Whole(Some(pieces[r.0].id))
            } else {
                EdgeRow::Ragged { row_id: pieces[r.0].id, k: r.1 }
            },
        ),
{
    match end {
        DeletePos::InRow { row_id, k } => {
            let i = choose|i: int|
                {
                    &&& 0 <= i < pieces.len()
                    &&& (#[trigger] pieces[i]).id == row_id
                    &&& !pieces[i].coord.tombstone
                    &&& 0 < k <= pieces[i].coord.len_bytes
                    &&& q == live_len(pieces, i) + k
                    &&& q < text(pieces).len()
                };
            lemma_read_piece(doc, pieces, i);
            (i, k)
        },
        _ => {
            lemma_last_live_row(doc, pieces);
            let n = pieces.len() as int;
            lemma_last_live(pieces, n);
            lemma_live_len_ends(pieces);
            let j = last_live(pieces, n);
            lemma_read_piece(doc, pieces, j);
            lemma_live_len_step(pieces, j);
            (j, pieces[j].coord.len_bytes)
        },
    }
}

// ---------- deletions ----------

/// The pieces hold the bytes of a range, and show all but those from `k1` to `k2`.
pub open spec fn parted(parts: Seq<Piece>, coord: PieceCoord, k1: int, k2: int) -> bool {
    &&& history(parts) == bytes_of(coord)
    &&& text(parts) == bytes_of(coord).take(k1) + bytes_of(coord).skip(k2)
}

/// What a live piece becomes when its bytes from `k1` to `k2` are deleted. Its
/// first part keeps its id, the others take ids from the next free one on.
pub open spec fn parts_of(piece: Piece, k1: u32, k2: u32, next_id: i64) -> Seq<Piece> {
    let coord = piece.coord;
    let id = piece.id;
    if k1 == 0 && k2 == coord.len_bytes {
        seq![Piece { id, coord: dead_coord(coord) }]
    } else if k1 == 0 {
        seq![
            Piece { id, coord: left_part(coord, k2, true) },
            Piece { id: next_id, coord: right_part(coord, k2, false) },
        ]
    } else if k2 == coord.len_bytes {
        seq![
            Piece { id, coord: left_part(coord, k1, false) },
            Piece { id: next_id, coord: right_part(coord, k1, true) },
        ]
    } else {
        seq![
            Piece { id, coord: left_part(coord, k1, false) },
            Piece {
                id: next_id,
                coord: PieceCoord {
                    start_byte: (coord.start_byte + k1) as u32,
                    len_bytes: (k2 - k1) as u32,
                    tombstone: true,
                    ..coord
                },
            },
            Piece { id: (next_id + 1) as i64, coord: right_part(coord, k2, false) },
        ]
    }
}

/// Deleting a part of a live piece parts it.
proof fn lemma_delete_in_row<E>(doc: Doc<E>, pieces: Seq<Piece>, i: int, k1: u32, k2: u32)
    requires
        is_linked(doc, pieces),
        0 <= i < pieces.len(),
        !pieces[i].coord.tombstone,
        0 <= k1 < k2 <= pieces[i].coord.len_bytes,
        doc.next_piece_id < i64::MAX,
        k1 > 0 && k2 < pieces[i].coord.len_bytes ==> doc.next_piece_id < i64::MAX - 1,
    ensures
        ({
            let (d, r) = delete_in_row(doc, row_in(doc.list_number, pieces, i), k1, k2);
            let parts = parts_of(pieces[i], k1, k2, doc.next_piece_id);
            &&& r is Ok
            &&& stays_chain(doc, pieces, d, replaced(pieces, i, parts))
            &&& d.next_piece_id == doc.next_piece_id + parts.len() - 1
            &&& d.list_number == doc.list_number
            &&& parted(parts, pieces[i].coord, k1 as int, k2 as int)
        }),
{
    let row = row_in(doc.list_number, pieces, i);
    let coord = pieces[i].coord;
    let m = doc.next_piece_id;
    let all = bytes_of(coord);
    let parts = parts_of(pieces[i], k1, k2, m);
    lemma_read_piece(doc, pieces, i);
    if k1 == 0 && k2 == coord.len_bytes {
        lemma_tombstone_row(doc, pieces, i);
        lemma_layout_one(parts[0], false);
        lemma_layout_one(parts[0], true);
        assert(parts =~= seq![parts[0]]);
        assert(replaced(pieces, i, parts) =~= with_coord(pieces, i, dead_coord(coord)));
        assert(bytes_of(parts[0].coord) =~= all);
        assert(text(parts) =~= all.take(0) + all.skip(k2 as int));
    } else if k1 == 0 {
        lemma_cut_row(doc, pieces, i, k2, true, false);
        lemma_layout_two(parts[0], parts[1], false);
        lemma_layout_two(parts[0], parts[1], true);
        lemma_parts(coord, k2, true, false);
        assert(parts =~= seq![parts[0], parts[1]]);
        assert(replaced(pieces, i, parts) =~= cut_piece(pieces, i, parts[0].coord, parts[1]));
        assert(text(parts) =~= all.take(0) + all.skip(k2 as int));
    } else if k2 == coord.len_bytes {
        lemma_cut_row(doc, pieces, i, k1, false, true);
        lemma_layout_two(parts[0], parts[1], false);
        lemma_layout_two(parts[0], parts[1], true);
        lemma_parts(coord, k1, false, true);
        assert(parts =~= seq![parts[0], parts[1]]);
        assert(replaced(pieces, i, parts) =~= cut_piece(pieces, i, parts[0].coord, parts[1]));
        assert(text(parts) =~= all.take(k1 as int) + all.skip(k2 as int));
    } else {
        let middle = parts[1].coord;
        assert forall|j: int| 0 <= j < pieces.len() && j != i implies apart(
            (#[trigger] pieces[j]).coord,
            middle,
        ) by {
            lemma_chain_disjoint(doc, pieces);
            if j < i {
                assert(apart(pieces[j].coord, pieces[i].coord));
            } else {
                assert(apart(pieces[i].coord, pieces[j].coord));
            }
        }
        lemma_split_row(doc, pieces, i, k1, k2, middle);
        lemma_layout_three(parts[0], parts[1], parts[2], false);
        lemma_layout_three(parts[0], parts[1], parts[2], true);
        lemma_parts(coord, k1, false, false);
        lemma_parts(coord, k2, false, false);
        assert(parts =~= seq![parts[0], parts[1], parts[2]]);
        assert(replaced(pieces, i, parts) =~= split_piece(
            pieces,
            i,
            parts[0].coord,
            parts[1],
            parts[2],
        ));
        assert(bytes_of(middle) =~= all.subrange(k1 as int, k2 as int));
        assert(history(parts) =~= all);
        assert(text(parts) =~= all.take(k1 as int) + all.skip(k2 as int));
    }
}

/// A chain with the pieces from `a` up to `b` deleted.
pub open spec fn killed(pieces: Seq<Piece>, a: int, b: int) -> Seq<Piece> {
    Seq::new(
        pieces.len(),
        |j: int|
            if a <= j < b {
                Piece { id: pieces[j].id, coord: dead_coord(pieces[j].coord) }
            } else {
                pieces[j]
            },
    )
}

/// Deleting the pieces between two.
proof fn lemma_delete_between<E>(
    doc: Doc<E>,
    pieces: Seq<Piece>,
    row: PieceRow,
    i: int,
    j: int,
    hops: int,
    cap: int,
)
    requires
        is_linked(doc, pieces),
        0 <= i < j < pieces.len(),
        row.id == pieces[i].id,
        row.next_id == id_at(pieces, i + 1),
        hops + (j - i) <= cap,
    ensures
        ({
            let (d, r) = delete_between(doc, row, pieces[j].id, hops, cap);
            &&& r is Ok
            &&& stays_chain(doc, pieces, d, killed(pieces, i + 1, j))
            &&& d.next_piece_id == doc.next_piece_id
            &&& d.list_number == doc.list_number
        }),
    decreases j - i,
{
    let exact = row_in(doc.list_number, pieces, i);
    lemma_step_forward(doc, pieces, i);
    let d = step_forward(doc, exact).0;
    assert(step_forward(doc, row) == step_forward(doc, exact));
    lemma_intact_chain(doc, d, pieces);
    if i + 1 == j {
        assert(killed(pieces, i + 1, j) =~= pieces);
    } else {
        lemma_ids_differ(doc, pieces, i + 1, j);
        lemma_tombstone_row(d, pieces, i + 1);
        let d2 = tombstone_row(d, pieces[i + 1].id).0;
        let rest = with_coord(pieces, i + 1, dead_coord(pieces[i + 1].coord));
        let next = row_in(doc.list_number, pieces, i + 1);
        assert(id_at(rest, i + 2) == id_at(pieces, i + 2));
        lemma_delete_between(d2, rest, next, i + 1, j, hops + 1, cap);
        assert(killed(rest, i + 2, j) =~= killed(pieces, i + 1, j));
    }
}

/// Deleted pieces keep what was written.
proof fn lemma_killed_layout(pieces: Seq<Piece>)
    ensures
        text(killed(pieces, 0, pieces.len() as int)) == Seq::<BytePlace>::empty(),
        history(killed(pieces, 0, pieces.len() as int)) == history(pieces),
    decreases pieces.len(),
{
    let n = pieces.len() as int;
    let dead = killed(pieces, 0, n);
    lemma_layout_deleted(dead);
    if n > 0 {
        lemma_killed_layout(pieces.drop_last());
        assert(dead.drop_last() =~= killed(pieces.drop_last(), 0, n - 1));
        assert(bytes_of(dead.last().coord) =~= bytes_of(pieces.last().coord));
    }
}

/// What is left of a chain after a deletion from the `i`-th piece to the `j`-th.
pub open spec fn deleted_rows(pieces: Seq<Piece>, i: int, first: Seq<Piece>, j: int, last: Seq<Piece>) -> Seq<
    Piece,
> {
    let between = pieces.subrange(i + 1, j);
    pieces.take(i) + first + killed(between, 0, between.len() as int) + last + pieces.skip(j + 1)
}

proof fn lemma_deleted_rows_layout(
    pieces: Seq<Piece>,
    i: int,
    first: Seq<Piece>,
    k1: int,
    j: int,
    last: Seq<Piece>,
    k2: int,
)
    requires
        0 <= i < j < pieces.len(),
        !pieces[i].coord.tombstone,
        !pieces[j].coord.tombstone,
        0 <= k1 <= pieces[i].coord.len_bytes,
        0 <= k2 <= pieces[j].coord.len_bytes,
        parted(first, pieces[i].coord, k1, pieces[i].coord.len_bytes as int),
        parted(last, pieces[j].coord, 0, k2),
    ensures
        text(deleted_rows(pieces, i, first, j, last)) == cut_out(
            text(pieces),
            live_len(pieces, i) + k1,
            live_len(pieces, j) + k2,
        ),
        history(deleted_rows(pieces, i, first, j, last)) == history(pieces),
{
    let a = pieces.take(i);
    let m = pieces.subrange(i + 1, j);
    let b = pieces.skip(j + 1);
    let dead = killed(m, 0, m.len() as int);
    let x = bytes_of(pieces[i].coord);
    let y = bytes_of(pieces[j].coord);
    lemma_killed_layout(m);
    lemma_four(a, first, dead, last, b, false);
    lemma_four(a, first, dead, last, b, true);
    let one = seq![pieces[i]];
    let two = seq![pieces[j]];
    lemma_four(a, one, m, two, b, false);
    lemma_four(a, one, m, two, b, true);
    assert(a + one + m + two + b =~= pieces);
    lemma_layout_one(pieces[i], false);
    lemma_layout_one(pieces[i], true);
    lemma_layout_one(pieces[j], false);
    lemma_layout_one(pieces[j], true);
    // The text up to the j-th piece.
    assert(a + one + m =~= pieces.take(j));
    lemma_layout_concat(a + one, m, false);
    lemma_layout_concat(a, one, false);
    let t = text(pieces);
    let p = live_len(pieces, i) + k1;
    let q = live_len(pieces, j) + k2;
    assert(t == text(a) + x + text(m) + y + text(b));
    assert(t.take(p) =~= text(a) + x.take(k1));
    assert(t.skip(q) =~= y.skip(k2) + text(b));
    assert(x.skip(pieces[i].coord.len_bytes as int) =~= Seq::empty());
    assert(y.take(0) =~= Seq::empty());
    assert(text(deleted_rows(pieces, i, first, j, last)) =~= t.take(p) + t.skip(q));
}

proof fn lemma_four(a: Seq<Piece>, b: Seq<Piece>, c: Seq<Piece>, d: Seq<Piece>, e: Seq<Piece>, deleted: bool)
    ensures
        laid_out(a + b + c + d + e, deleted) == laid_out(a, deleted) + laid_out(b, deleted) + laid_out(
            c,
            deleted,
        ) + laid_out(d, deleted) + laid_out(e, deleted),
{
    lemma_layout_concat(a, b, deleted);
    lemma_layout_concat(a + b, c, deleted);
    lemma_layout_concat(a + b + c, d, deleted);
    lemma_layout_concat(a + b + c + d, e, deleted);
}

pub open spec fn first_edge_of(id: i64, k: u32) -> EdgeRow {
    if k == 0 {
        EdgeRow::Whole(Some(id))
    } else {
        EdgeRow::Ragged { row_id: id, k }
    }
}

pub open spec fn last_edge_of(id: i64, k: u32, len: u32) -> EdgeRow {
    if k == len {
        EdgeRow::Whole(Some(id))
    } else {
        EdgeRow::Ragged { row_id: id, k }
    }
}

/// The chain after a deletion from `k1` bytes into the `i`-th piece to `k2` bytes
/// into the `j`-th.
pub open spec fn deleted_span(
    pieces: Seq<Piece>,
    next_id: i64,
    i: int,
    k1: u32,
    j: int,
    k2: u32,
) -> Seq<Piece> {
    if i == j {
        replaced(pieces, i, parts_of(pieces[i], k1, k2, next_id))
    } else {
        let first = parts_of(pieces[i], k1, pieces[i].coord.len_bytes, next_id);
        let last = parts_of(pieces[j], 0, k2, (next_id + first.len() - 1) as i64);
        deleted_rows(pieces, i, first, j, last)
    }
}

/// Deleting from a place in one piece to a place in a later one.
proof fn lemma_delete_rows<E>(doc: Doc<E>, pieces: Seq<Piece>, i: int, k1: u32, j: int, k2: u32)
    requires
        is_linked(doc, pieces),
        has_ids(doc),
        0 <= i < j < pieces.len(),
        !pieces[i].coord.tombstone,
        !pieces[j].coord.tombstone,
        0 <= k1 < pieces[i].coord.len_bytes,
        0 < k2 <= pieces[j].coord.len_bytes,
    ensures
        ({
            let first = first_edge_of(pieces[i].id, k1);
            let last = last_edge_of(pieces[j].id, k2, pieces[j].coord.len_bytes);
            let (d, r) = delete_rows(doc, first, pieces[i].id, last, pieces[j].id);
            let after = deleted_span(pieces, doc.next_piece_id, i, k1, j, k2);
            &&& r is Ok
            &&& stays_chain(doc, pieces, d, after)
            &&& d.next_piece_id - doc.next_piece_id == after.len() - pieces.len()
            &&& text(after) == cut_out(
                text(pieces),
                live_len(pieces, i) + k1,
                live_len(pieces, j) + k2,
            )
            &&& history(after) == history(pieces)
            &&& pieces.len() <= after.len() <= pieces.len() + 2
        }),
{
    let first = first_edge_of(pieces[i].id, k1);
    let last = last_edge_of(pieces[j].id, k2, pieces[j].coord.len_bytes);
    let len1 = pieces[i].coord.len_bytes;
    let parts = parts_of(pieces[i], k1, len1, doc.next_piece_id);
    // What goes of the first piece.
    lemma_read_piece(doc, pieces, i);
    let d0 = if k1 == 0 { doc } else { doc.read(pieces[i].id).0 };
    let row = row_in(doc.list_number, pieces, i);
    lemma_delete_in_row(d0, pieces, i, k1, len1);
    let d1 = delete_first(doc, first, pieces[i].id).0;
    assert(d1 == delete_in_row(d0, row, k1, len1).0);
    let pieces1 = replaced(pieces, i, parts);
    let n = parts.len() - 1;
    // What lies between.
    assert(pieces1[i] == parts[0]);
    assert(pieces1[j + n] == pieces[j]);
    lemma_read_piece(d1, pieces1, i);
    let d2 = d1.read(pieces[i].id).0;
    lemma_chain_len(d2, pieces1);
    lemma_delete_between(
        d2,
        pieces1,
        row_in(doc.list_number, pieces1, i),
        i,
        j + n,
        0,
        d1.next_piece_id as int,
    );
    let d3 = delete_between(
        d2,
        row_in(doc.list_number, pieces1, i),
        pieces[j].id,
        0,
        d1.next_piece_id as int,
    ).0;
    let pieces2 = killed(pieces1, i + 1, j + n);
    // What goes of the last piece.
    assert(pieces2[j + n] == pieces[j]);
    lemma_read_piece(d3, pieces2, j + n);
    let d4 = if k2 == pieces[j].coord.len_bytes { d3 } else { d3.read(pieces[j].id).0 };
    lemma_delete_in_row(d4, pieces2, j + n, 0, k2);
    let tail = parts_of(pieces[j], 0, k2, d4.next_piece_id);
    let after = replaced(pieces2, j + n, tail);
    assert(delete_last(d3, last, pieces[j].id).0 == delete_in_row(
        d4,
        row_in(d4.list_number, pieces2, j + n),
        0,
        k2,
    ).0);
    assert(after =~= deleted_rows(pieces, i, parts, j, tail)) by {
        let between = pieces.subrange(i + 1, j);
        let dead = killed(between, 0, between.len() as int);
        assert(pieces2.take(j + n) =~= pieces.take(i) + parts + dead) by {
            assert forall|x: int| 0 <= x < j + n implies pieces2.take(j + n)[x] == (pieces.take(i)
                + parts + dead)[x] by {
                if i < x <= i + n {
                    assert(parts[x - i].coord.tombstone);
                }
            }
        }
        assert(pieces2.skip(j + n + 1) =~= pieces.skip(j + 1));
    }
    lemma_deleted_rows_layout(pieces, i, parts, k1 as int, j, tail, k2 as int);
}

/// Deleting from a place to another within one piece.
proof fn lemma_deleted_in_row_layout(pieces: Seq<Piece>, i: int, parts: Seq<Piece>, k1: int, k2: int)
    requires
        0 <= i < pieces.len(),
        !pieces[i].coord.tombstone,
        0 <= k1 <= k2 <= pieces[i].coord.len_bytes,
        parted(parts, pieces[i].coord, k1, k2),
    ensures
        text(replaced(pieces, i, parts)) == cut_out(
            text(pieces),
            live_len(pieces, i) + k1,
            live_len(pieces, i) + k2,
        ),
        history(replaced(pieces, i, parts)) == history(pieces),
{
    lemma_layout_replaced(pieces, i, parts, false);
    lemma_layout_replaced(pieces, i, parts, true);
    lemma_layout_at(pieces, i, false);
    lemma_layout_at(pieces, i, true);
    let t = text(pieces);
    let x = bytes_of(pieces[i].coord);
    let n = live_len(pieces, i);
    assert(t.take(n + k1) =~= text(pieces.take(i)) + x.take(k1));
    assert(t.skip(n + k2) =~= x.skip(k2) + text(pieces.skip(i + 1)));
    assert(text(replaced(pieces, i, parts)) =~= t.take(n + k1) + t.skip(n + k2));
}

/// Deleting what lies between two edges.
proof fn lemma_delete_edges<E>(doc: Doc<E>, pieces: Seq<Piece>, i: int, k1: u32, j: int, k2: u32)
    requires
        is_linked(doc, pieces),
        has_ids(doc),
        0 <= i <= j < pieces.len(),
        !pieces[i].coord.tombstone,
        !pieces[j].coord.tombstone,
        0 <= k1 < pieces[i].coord.len_bytes,
        0 < k2 <= pieces[j].coord.len_bytes,
        i == j ==> k1 < k2,
    ensures
        ({
            let first = first_edge_of(pieces[i].id, k1);
            let last = last_edge_of(pieces[j].id, k2, pieces[j].coord.len_bytes);
            let (d, r) = delete_edges(doc, first, last);
            let after = deleted_span(pieces, doc.next_piece_id, i, k1, j, k2);
            &&& r is Ok
            &&& stays_chain(doc, pieces, d, after)
            &&& d.next_piece_id - doc.next_piece_id == after.len() - pieces.len()
            &&& text(after) == cut_out(
                text(pieces),
                live_len(pieces, i) + k1,
                live_len(pieces, j) + k2,
            )
            &&& history(after) == history(pieces)
            &&& pieces.len() <= after.len() <= pieces.len() + 2
        }),
{
    if i == j {
        lemma_read_piece(doc, pieces, i);
        let d = doc.read(pieces[i].id).0;
        lemma_delete_in_row(d, pieces, i, k1, k2);
        let parts = parts_of(pieces[i], k1, k2, doc.next_piece_id);
        lemma_deleted_in_row_layout(pieces, i, parts, k1 as int, k2 as int);
    } else {
        lemma_ids_differ(doc, pieces, i, j);
        lemma_delete_rows(doc, pieces, i, k1, j, k2);
    }
}

/// The live piece that the byte after place `p` is of.
pub open spec fn holds_after(pieces: Seq<Piece>, p: int, i: int) -> bool {
    &&& 0 <= i < pieces.len()
    &&& !pieces[i].coord.tombstone
    &&& live_len(pieces, i) <= p < live_len(pieces, i) + pieces[i].coord.len_bytes
}

/// The live piece that the byte before place `q` is of.
pub open spec fn holds_before(pieces: Seq<Piece>, q: int, j: int) -> bool {
    &&& 0 <= j < pieces.len()
    &&& !pieces[j].coord.tombstone
    &&& live_len(pieces, j) < q <= live_len(pieces, j) + pieces[j].coord.len_bytes
}

proof fn lemma_holder_unique(pieces: Seq<Piece>, p: int, i: int, j: int)
    requires
        holds_after(pieces, p, i) && holds_after(pieces, p, j) || holds_before(pieces, p, i)
            && holds_before(pieces, p, j),
    ensures
        i == j,
{
    lemma_live_len_step(pieces, i);
    lemma_live_len_step(pieces, j);
    if i < j {
        lemma_live_len_grows(pieces, i + 1, j);
    } else if j < i {
        lemma_live_len_grows(pieces, j + 1, i);
    }
}

/// The chain after a deletion between two known coordinates.
pub open spec fn deleted_chain(
    pieces: Seq<Piece>,
    next_id: i64,
    start: BufferCoord,
    end: BufferCoord,
) -> Seq<Piece> {
    let p = live_place(pieces, start);
    let q = live_place(pieces, end);
    if p >= q {
        pieces
    } else {
        let i = choose|i: int| holds_after(pieces, p, i);
        let j = choose|j: int| holds_before(pieces, q, j);
        deleted_span(
            pieces,
            next_id,
            i,
            (p - live_len(pieces, i)) as u32,
            j,
            (q - live_len(pieces, j)) as u32,
        )
    }
}

/// A deletion between two known coordinates takes the text between their places
/// out, and leaves all other text as it was; if the first place comes after the
/// second it is refused. All that was ever written is kept.
pub proof fn law_delete_cuts_text<E>(
    doc: Doc<E>,
    pieces: Seq<Piece>,
    start: BufferCoord,
    end: BufferCoord,
)
    requires
        is_chain(doc, pieces),
        has_room(doc, pieces),
        knows(pieces, start),
        knows(pieces, end),
    ensures
        ({
            let (d, r) = delete_text(doc, start, end);
            let p = live_place(pieces, start);
            let q = live_place(pieces, end);
            let after = deleted_chain(pieces, doc.next_piece_id, start, end);
            if p <= q {
                &&& r is Ok
                &&& is_chain(d, after)
                &&& text(after) == cut_out(text(pieces), p, q)
                &&& history(after) == history(pieces)
                &&& d.next_piece_id - doc.next_piece_id == after.len() - pieces.len()
                &&& pieces.len() <= after.len() <= pieces.len() + 2
            } else {
                r == Err::<(), EditError<E>>(EditError::Fault(EditFault::StartPastEnd))
            }
        }),
{
    if start != BufferCoord::document_start() {
        lemma_finds(doc, pieces, start);
    }
    if end != BufferCoord::document_start() {
        lemma_finds(doc, pieces, end);
    }
    lemma_delete_cuts_text(doc, pieces, start, end);
}

/// A deletion between known coordinates that the document finds.
#[verifier::spinoff_prover]
#[verifier::rlimit(80)]
pub proof fn lemma_delete_cuts_text<E>(
    doc: Doc<E>,
    pieces: Seq<Piece>,
    start: BufferCoord,
    end: BufferCoord,
)
    requires
        is_linked(doc, pieces),
        has_ids(doc),
        knows(pieces, start),
        knows(pieces, end),
        start != BufferCoord::document_start() ==> finds(doc, pieces, start),
        end != BufferCoord::document_start() ==> finds(doc, pieces, end),
    ensures
        ({
            let (d, r) = delete_text(doc, start, end);
            let p = live_place(pieces, start);
            let q = live_place(pieces, end);
            let after = deleted_chain(pieces, doc.next_piece_id, start, end);
            if p <= q {
                &&& r is Ok
                &&& stays_chain(doc, pieces, d, after)
                &&& text(after) == cut_out(text(pieces), p, q)
                &&& history(after) == history(pieces)
                &&& d.next_piece_id - doc.next_piece_id == after.len() - pieces.len()
                &&& pieces.len() <= after.len() <= pieces.len() + 2
            } else {
                r == Err::<(), EditError<E>>(EditError::Fault(EditFault::StartPastEnd))
            }
        }),
{
    let p = live_place(pieces, start);
    let q = live_place(pieces, end);
    lemma_place_in_text(doc, pieces, start);
    lemma_place_in_text(doc, pieces, end);
    lemma_delete_start(doc, pieces, start);
    let (d1, r1) = delete_start(doc, start);
    lemma_intact_chain(doc, d1, pieces);
    let from = r1->Ok_0;
    if end != BufferCoord::document_start() {
        lemma_still_finds(doc, d1, pieces, end);
    }
    lemma_delete_end(d1, pieces, end);
    let (d2, r2) = delete_end(d1, end);
    lemma_intact_chain(d1, d2, pieces);
    let to = r2->Ok_0;
    lemma_position_order(d2, pieces, from, p, to, q);
    let d3 = position_order(d2, from, to).0;
    lemma_intact_chain(d2, d3, pieces);
    if p == q {
        assert(cut_out(text(pieces), p, q) =~= text(pieces));
    }
    if p < q {
        let (i, k1) = lemma_first_edge(d3, pieces, from, p);
        let d4 = first_edge(d3, from).0;
        lemma_intact_chain(d3, d4, pieces);
        let (j, k2) = lemma_last_edge(d4, pieces, to, q);
        let d5 = last_edge(d4, to).0;
        lemma_intact_chain(d4, d5, pieces);
        lemma_live_len_step(pieces, i);
        lemma_live_len_step(pieces, j);
        if j < i {
            lemma_live_len_grows(pieces, j + 1, i);
        }
        assert(holds_after(pieces, p, i));
        assert(holds_before(pieces, q, j));
        lemma_holder_unique(pieces, p, i, choose|x: int| holds_after(pieces, p, x));
        lemma_holder_unique(pieces, q, j, choose|x: int| holds_before(pieces, q, x));
        let first = first_edge_of(pieces[i].id, k1);
        let last = last_edge_of(pieces[j].id, k2, pieces[j].coord.len_bytes);
        assert(delete_text(doc, start, end) == delete_edges(d5, first, last));
        lemma_delete_edges(d5, pieces, i, k1, j, k2);
    }
}

// ---------- unknown coordinates ----------

/// Why a coordinate that the document does not know is refused.
pub open spec fn unknown_fault(at: BufferCoord, purpose: ResolvePurpose) -> EditFault {
    if at.buffer_id <= 0 {
        EditFault::BufferNotPositive { buffer_id: at.buffer_id }
    } else {
        EditFault::UnknownCoordinate { coord: at, purpose }
    }
}

/// An insert at a coordinate that the document does not know is refused.
pub proof fn law_insert_refuses_unknown<E>(
    doc: Doc<E>,
    pieces: Seq<Piece>,
    at: BufferCoord,
    coord: PieceCoord,
)
    requires
        is_chain(doc, pieces),
        has_room(doc, pieces),
        !knows(pieces, at),
    ensures
        insert_piece(doc, at, coord).1 == Err::<(), EditError<E>>(
            EditError::Fault(unknown_fault(at, ResolvePurpose::InsertAnchor)),
        ),
{
    if at.buffer_id > 0 {
        lemma_resolve(doc, pieces, at, ResolvePurpose::InsertAnchor);
    }
}

/// A deletion from or to a coordinate that the document does not know is refused.
pub proof fn law_delete_refuses_unknown<E>(
    doc: Doc<E>,
    pieces: Seq<Piece>,
    start: BufferCoord,
    end: BufferCoord,
)
    requires
        is_chain(doc, pieces),
        has_room(doc, pieces),
        !knows(pieces, start) || !knows(pieces, end),
    ensures
        delete_text(doc, start, end).1 == Err::<(), EditError<E>>(
            EditError::Fault(
                if knows(pieces, start) {
                    unknown_fault(end, ResolvePurpose::DeleteEnd)
                } else {
                    unknown_fault(start, ResolvePurpose::DeleteStart)
                },
            ),
        ),
{
    if knows(pieces, start) {
        if start != BufferCoord::document_start() {
            lemma_finds(doc, pieces, start);
        }
        lemma_delete_start(doc, pieces, start);
        let d1 = delete_start(doc, start).0;
        lemma_intact_chain(doc, d1, pieces);
        if end.buffer_id > 0 {
            lemma_resolve(d1, pieces, end, ResolvePurpose::DeleteEnd);
        }
    } else if start.buffer_id > 0 {
        lemma_resolve(doc, pieces, start, ResolvePurpose::DeleteStart);
    }
}

// ---------- alignment ----------

/// Every piece starts and ends between two scalars.
pub open spec fn all_aligned(pieces: Seq<Piece>) -> bool {
    forall|i: int| 0 <= i < pieces.len() ==> (#[trigger] pieces[i]).coord.aligned()
}

proof fn lemma_aligned_len(pieces: Seq<Piece>, n: int)
    requires
        all_aligned(pieces),
        0 <= n <= pieces.len(),
    ensures
        live_len(pieces, n) % 4 == 0,
    decreases n,
{
    if n == 0 {
        lemma_live_len_ends(pieces);
    } else {
        lemma_aligned_len(pieces, n - 1);
        lemma_live_len_step(pieces, n - 1);
        assert(pieces[n - 1].coord.aligned());
    }
}

proof fn lemma_aligned_place(pieces: Seq<Piece>, at: BufferCoord)
    requires
        disjoint(pieces),
        all_aligned(pieces),
        at.byte_pos % 4 == 0,
        knows(pieces, at),
    ensures
        live_place(pieces, at) % 4 == 0,
        0 <= live_place(pieces, at) <= text(pieces).len(),
{
    if at != BufferCoord::document_start() {
        let i = choose|i: int| anchors(pieces, at, i);
        lemma_live_place(pieces, at, i);
        lemma_aligned_len(pieces, i);
        assert(pieces[i].coord.aligned());
    }
}

/// An aligned insert at an aligned coordinate keeps every piece aligned: no
/// scalar is ever split.
pub proof fn law_insert_keeps_alignment(
    pieces: Seq<Piece>,
    next_id: i64,
    at: BufferCoord,
    coord: PieceCoord,
)
    requires
        disjoint(pieces),
        all_aligned(pieces),
        knows(pieces, at),
        at.byte_pos % 4 == 0,
        coord.aligned(),
    ensures
        all_aligned(inserted_chain(pieces, next_id, at, coord)),
{
    let after = inserted_chain(pieces, next_id, at, coord);
    if at == BufferCoord::document_start() {
        lemma_insert_aligned(pieces, 0, Piece { id: next_id, coord });
    } else {
        let i = choose|i: int| anchors(pieces, at, i);
        let found = pieces[i].coord;
        let k = (at.byte_pos - found.start_byte) as u32;
        assert(found.aligned() && whole(found));
        let new = Piece { id: next_id, coord };
        if found.tombstone {
            lemma_last_live(pieces, i + 1);
            lemma_insert_aligned(pieces, last_live(pieces, i + 1) + 1, new);
        } else if k == found.len_bytes {
            lemma_insert_aligned(pieces, i + 1, new);
        } else if k == 0 {
            lemma_insert_aligned(pieces, i, new);
        } else {
            let right = Piece { id: (next_id + 1) as i64, coord: right_part(found, k, false) };
            let shorter = with_coord(pieces, i, left_part(found, k, false));
            assert(all_aligned(shorter)) by {
                assert forall|j: int| 0 <= j < shorter.len() implies (
                #[trigger] shorter[j]).coord.aligned() by {
                    assert(pieces[j].coord.aligned());
                }
            }
            lemma_insert_aligned(shorter, i + 1, new);
            lemma_insert_aligned(shorter.insert(i + 1, new), i + 2, right);
        }
    }
}

proof fn lemma_insert_aligned(pieces: Seq<Piece>, p: int, piece: Piece)
    requires
        all_aligned(pieces),
        piece.coord.aligned(),
        0 <= p <= pieces.len(),
    ensures
        all_aligned(pieces.insert(p, piece)),
{
    let after = pieces.insert(p, piece);
    assert forall|j: int| 0 <= j < after.len() implies (#[trigger] after[j]).coord.aligned() by {
        if j < p {
            assert(pieces[j].coord.aligned());
        } else if j > p {
            assert(pieces[j - 1].coord.aligned());
        }
    }
}

proof fn lemma_parts_aligned(piece: Piece, k1: u32, k2: u32, next_id: i64)
    requires
        piece.coord.aligned(),
        piece.coord.end() <= u32::MAX,
        k1 <= k2 <= piece.coord.len_bytes,
        k1 % 4 == 0,
        k2 % 4 == 0,
    ensures
        all_aligned(parts_of(piece, k1, k2, next_id)),
{
}

proof fn lemma_concat_aligned(a: Seq<Piece>, b: Seq<Piece>)
    requires
        all_aligned(a),
        all_aligned(b),
    ensures
        all_aligned(a + b),
{
    assert forall|j: int| 0 <= j < (a + b).len() implies (#[trigger] (a + b)[j]).coord.aligned() by {
        if j < a.len() {
            assert(a[j].coord.aligned());
        } else {
            assert(b[j - a.len()].coord.aligned());
        }
    }
}

proof fn lemma_subrange_aligned(pieces: Seq<Piece>, a: int, b: int)
    requires
        all_aligned(pieces),
        0 <= a <= b <= pieces.len(),
    ensures
        all_aligned(pieces.subrange(a, b)),
        all_aligned(killed(pieces.subrange(a, b), 0, b - a)),
{
    let part = pieces.subrange(a, b);
    assert forall|j: int| 0 <= j < part.len() implies (#[trigger] part[j]).coord.aligned() by {
        assert(pieces[a + j].coord.aligned());
    }
    let dead = killed(part, 0, b - a);
    assert forall|j: int| 0 <= j < dead.len() implies (#[trigger] dead[j]).coord.aligned() by {
        assert(part[j].coord.aligned());
    }
}

proof fn lemma_holder_exists(pieces: Seq<Piece>, p: int, n: int)
    requires
        0 <= n <= pieces.len(),
    ensures
        0 <= p < live_len(pieces, n) ==> exists|i: int| holds_after(pieces, p, i),
        0 < p <= live_len(pieces, n) ==> exists|i: int| holds_before(pieces, p, i),
    decreases n,
{
    lemma_live_len_ends(pieces);
    if n > 0 {
        lemma_holder_exists(pieces, p, n - 1);
        lemma_live_len_step(pieces, n - 1);
        if live_len(pieces, n - 1) <= p < live_len(pieces, n) {
            assert(holds_after(pieces, p, n - 1));
        }
        if live_len(pieces, n - 1) < p <= live_len(pieces, n) {
            assert(holds_before(pieces, p, n - 1));
        }
    }
}

/// A deletion between aligned coordinates keeps every piece aligned.
pub proof fn law_delete_keeps_alignment(
    pieces: Seq<Piece>,
    next_id: i64,
    start: BufferCoord,
    end: BufferCoord,
)
    requires
        disjoint(pieces),
        all_aligned(pieces),
        knows(pieces, start),
        knows(pieces, end),
        start.byte_pos % 4 == 0,
        end.byte_pos % 4 == 0,
    ensures
        all_aligned(deleted_chain(pieces, next_id, start, end)),
{
    let p = live_place(pieces, start);
    let q = live_place(pieces, end);
    lemma_aligned_place(pieces, start);
    lemma_aligned_place(pieces, end);
    if p < q {
        let n = pieces.len() as int;
        lemma_live_len_ends(pieces);
        lemma_holder_exists(pieces, p, n);
        lemma_holder_exists(pieces, q, n);
        let i = choose|i: int| holds_after(pieces, p, i);
        let j = choose|j: int| holds_before(pieces, q, j);
        lemma_aligned_len(pieces, i);
        lemma_aligned_len(pieces, j);
        let k1 = (p - live_len(pieces, i)) as u32;
        let k2 = (q - live_len(pieces, j)) as u32;
        assert(pieces[i].coord.aligned() && whole(pieces[i].coord));
        assert(pieces[j].coord.aligned() && whole(pieces[j].coord));
        lemma_live_len_step(pieces, i);
        lemma_live_len_step(pieces, j);
        if j < i {
            lemma_live_len_grows(pieces, j + 1, i);
        }
        lemma_subrange_aligned(pieces, 0, i);
        lemma_subrange_aligned(pieces, j + 1, n);
        assert(pieces.take(i) =~= pieces.subrange(0, i));
        assert(pieces.skip(j + 1) =~= pieces.subrange(j + 1, n));
        if i == j {
            let parts = parts_of(pieces[i], k1, k2, next_id);
            lemma_parts_aligned(pieces[i], k1, k2, next_id);
            lemma_concat_aligned(pieces.take(i), parts);
            lemma_concat_aligned(pieces.take(i) + parts, pieces.skip(i + 1));
        } else {
            let len = pieces[i].coord.len_bytes;
            let first = parts_of(pieces[i], k1, len, next_id);
            let last_id = (next_id + first.len() - 1) as i64;
            let last = parts_of(pieces[j], 0, k2, last_id);
            lemma_parts_aligned(pieces[i], k1, len, next_id);
            lemma_parts_aligned(pieces[j], 0, k2, last_id);
            lemma_subrange_aligned(pieces, i + 1, j);
            let between = pieces.subrange(i + 1, j);
            let dead = killed(between, 0, between.len() as int);
            lemma_concat_aligned(pieces.take(i), first);
            lemma_concat_aligned(pieces.take(i) + first, dead);
            lemma_concat_aligned(pieces.take(i) + first + dead, last);
            lemma_concat_aligned(pieces.take(i) + first + dead + last, pieces.skip(j + 1));
        }
    }
}

} // verus!
