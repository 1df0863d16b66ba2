//! Documents whose rows are well linked, and the text that they hold.
//!
//! A chain is the sequence of a document's pieces in their order. The text of a
//! chain is the bytes that its pieces cover, one after the other: those of the
//! live pieces are what a reader sees, those of all pieces what was ever written.

use vstd::prelude::*;

use crate::piece_text::{BufferCoord, PieceCoord};
use crate::piece_text_planner::PieceRow;
use crate::piece_text_resolution::Doc;

verus! {

/// A row without its links.
pub struct Piece {
    pub id: i64,
    pub coord: PieceCoord,
}

/// A byte of a buffer.
pub struct BytePlace {
    pub buffer_id: i64,
    pub byte: int,
}

/// The id of a piece of a chain, or 0 past the ends.
pub open spec fn id_at(pieces: Seq<Piece>, i: int) -> i64 {
    if 0 <= i < pieces.len() {
        pieces[i].id
    } else {
        0
    }
}

/// The row that a piece of a chain is.
pub open spec fn row_in(list_number: i64, pieces: Seq<Piece>, i: int) -> PieceRow {
    PieceRow {
        id: pieces[i].id,
        list_number,
        prev_id: id_at(pieces, i - 1),
        next_id: id_at(pieces, i + 1),
        coord: pieces[i].coord,
    }
}

/// The document's rows are linked as the pieces follow each other.
pub open spec fn linked<E>(doc: Doc<E>, pieces: Seq<Piece>) -> bool {
    &&& doc.head == Ok::<i64, E>(id_at(pieces, 0))
    &&& doc.tail == Ok::<i64, E>(id_at(pieces, pieces.len() - 1))
    &&& forall|i: int|
        0 <= i < pieces.len() ==> doc.at((#[trigger] pieces[i]).id) == Ok::<PieceRow, E>(
            row_in(doc.list_number, pieces, i),
        )
}

/// Ids are positive, and no two pieces have the same.
pub open spec fn distinct(pieces: Seq<Piece>) -> bool {
    &&& forall|i: int| 0 <= i < pieces.len() ==> (#[trigger] pieces[i]).id > 0
    &&& forall|i: int, j: int|
        0 <= i < j < pieces.len() ==> (#[trigger] pieces[i]).id != (#[trigger] pieces[j]).id
}

/// A range of bytes of a buffer that is not empty.
pub open spec fn whole(coord: PieceCoord) -> bool {
    &&& coord.buffer_id > 0
    &&& coord.len_bytes > 0
    &&& coord.end() <= u32::MAX
}

/// Two ranges have no byte in common.
pub open spec fn apart(a: PieceCoord, b: PieceCoord) -> bool {
    a.buffer_id == b.buffer_id ==> a.end() <= b.start_byte || b.end() <= a.start_byte
}

/// Every piece covers some bytes, and no byte is covered twice.
pub open spec fn disjoint(pieces: Seq<Piece>) -> bool {
    &&& forall|i: int| 0 <= i < pieces.len() ==> whole((#[trigger] pieces[i]).coord)
    &&& forall|i: int, j: int|
        0 <= i < j < pieces.len() ==> apart((#[trigger] pieces[i]).coord, (#[trigger] pieces[j]).coord)
}

/// One of the pieces has the id, and is of the buffer.
pub open spec fn has_piece(pieces: Seq<Piece>, id: i64, buffer_id: i64) -> bool {
    exists|i: int|
        0 <= i < pieces.len() && (#[trigger] pieces[i]).id == id && pieces[i].coord.buffer_id
            == buffer_id
}

/// A lookup of a buffer's rows finds its pieces, each once.
#[verifier::opaque]
pub open spec fn indexed<E>(doc: Doc<E>, pieces: Seq<Piece>) -> bool {
    forall|b: i64|
        b > 0 ==> (#[trigger] (doc.candidates)(b) matches Ok(ids) && ids.no_duplicates() && forall|id: i64| #[trigger]
            ids.contains(id) == has_piece(pieces, id, b))
}

/// No row has an id from the next free one on.
pub open spec fn ids_below_next<E>(doc: Doc<E>) -> bool {
    &&& doc.next_piece_id > 0
    &&& forall|id: i64| (#[trigger] doc.at(id)) is Ok ==> id < doc.next_piece_id
    &&& forall|id: i64| #[trigger] doc.loaded.contains(id) ==> id < doc.next_piece_id
}

/// The document's endpoints and links make a chain of the pieces.
#[verifier::opaque]
pub open spec fn is_linked<E>(doc: Doc<E>, pieces: Seq<Piece>) -> bool {
    &&& linked(doc, pieces)
    &&& distinct(pieces)
    &&& disjoint(pieces)
    &&& ids_below_next(doc)
}

/// The document is well formed, and its pieces are those given, in that order.
pub open spec fn is_chain<E>(doc: Doc<E>, pieces: Seq<Piece>) -> bool {
    is_linked(doc, pieces) && indexed(doc, pieces)
}

/// The document has become one of other pieces, and its lookups find them if they
/// found the pieces from before.
pub open spec fn stays_chain<E>(doc: Doc<E>, pieces: Seq<Piece>, d: Doc<E>, after: Seq<Piece>) -> bool {
    is_linked(d, after) && (indexed(doc, pieces) ==> indexed(d, after))
}

// ---------- text ----------

/// The bytes of a range.
pub open spec fn bytes_of(coord: PieceCoord) -> Seq<BytePlace> {
    Seq::new(
        coord.len_bytes as nat,
        |i: int| BytePlace { buffer_id: coord.buffer_id, byte: coord.start_byte + i },
    )
}

/// The bytes of the pieces, one after the other; those of deleted pieces only
/// where `deleted` says so.
pub open spec fn laid_out(pieces: Seq<Piece>, deleted: bool) -> Seq<BytePlace>
    decreases pieces.len(),
{
    if pieces.len() == 0 {
        Seq::empty()
    } else {
        let last = pieces.last().coord;
        let before = laid_out(pieces.drop_last(), deleted);
        if deleted || !last.tombstone {
            before + bytes_of(last)
        } else {
            before
        }
    }
}

/// What a reader of the document sees.
pub open spec fn text(pieces: Seq<Piece>) -> Seq<BytePlace> {
    laid_out(pieces, false)
}

/// What was ever written to the document, with what has been deleted since.
pub open spec fn history(pieces: Seq<Piece>) -> Seq<BytePlace> {
    laid_out(pieces, true)
}

/// How many bytes of the text the first `n` pieces hold.
pub open spec fn live_len(pieces: Seq<Piece>, n: int) -> int {
    text(pieces.take(n)).len() as int
}

// ---------- coordinates ----------

/// The coordinate lies at the `i`-th piece: inside it or at its end, or at its
/// start if no piece ends there.
pub open spec fn anchors(pieces: Seq<Piece>, at: BufferCoord, i: int) -> bool {
    &&& 0 <= i < pieces.len()
    &&& pieces[i].coord.buffer_id == at.buffer_id
    &&& pieces[i].coord.start_byte <= at.byte_pos <= pieces[i].coord.end()
    &&& pieces[i].coord.start_byte == at.byte_pos ==> forall|j: int|
        0 <= j < pieces.len() && (#[trigger] pieces[j]).coord.buffer_id == at.buffer_id
            ==> pieces[j].coord.end() != at.byte_pos
}

/// The document knows the coordinate.
pub open spec fn knows(pieces: Seq<Piece>, at: BufferCoord) -> bool {
    at == BufferCoord::document_start() || (at.buffer_id > 0 && exists|i: int| anchors(pieces, at, i))
}

/// How far into the `i`-th piece a coordinate is, as far as a reader sees.
pub open spec fn live_offset(pieces: Seq<Piece>, at: BufferCoord, i: int) -> int {
    if pieces[i].coord.tombstone {
        0
    } else {
        at.byte_pos - pieces[i].coord.start_byte
    }
}

/// The place of a coordinate in the text: how many bytes of it come before.
pub open spec fn live_place(pieces: Seq<Piece>, at: BufferCoord) -> int {
    if at == BufferCoord::document_start() {
        0
    } else {
        let i = choose|i: int| anchors(pieces, at, i);
        live_len(pieces, i) + live_offset(pieces, at, i)
    }
}

/// Text with something put in at a place.
pub open spec fn spliced(text: Seq<BytePlace>, place: int, what: Seq<BytePlace>) -> Seq<BytePlace> {
    text.take(place) + what + text.skip(place)
}

/// Text without what lies between two places.
pub open spec fn cut_out(text: Seq<BytePlace>, from: int, to: int) -> Seq<BytePlace> {
    text.take(from) + text.skip(to)
}

// ---------- layout of parts ----------

pub proof fn lemma_layout_concat(a: Seq<Piece>, b: Seq<Piece>, deleted: bool)
    ensures
        laid_out(a + b, deleted) == laid_out(a, deleted) + laid_out(b, deleted),
    decreases b.len(),
{
    if b.len() == 0 {
        assert(a + b =~= a);
        assert(laid_out(a, deleted) + laid_out(b, deleted) =~= laid_out(a, deleted));
    } else {
        assert((a + b).drop_last() =~= a + b.drop_last());
        assert((a + b).last() == b.last());
        lemma_layout_concat(a, b.drop_last(), deleted);
        assert(laid_out(a + b, deleted) =~= laid_out(a, deleted) + laid_out(b, deleted));
    }
}

/// The bytes of one piece.
pub open spec fn shown(piece: Piece, deleted: bool) -> Seq<BytePlace> {
    if deleted || !piece.coord.tombstone {
        bytes_of(piece.coord)
    } else {
        Seq::empty()
    }
}

pub proof fn lemma_layout_one(piece: Piece, deleted: bool)
    ensures
        laid_out(seq![piece], deleted) == shown(piece, deleted),
{
    let one = seq![piece];
    assert(one.drop_last() =~= Seq::empty());
    assert(laid_out(one.drop_last(), deleted) =~= Seq::empty());
    assert(laid_out(one, deleted) =~= shown(piece, deleted));
}

/// A chain is what comes before a piece, the piece, and what comes after.
pub proof fn lemma_layout_at(pieces: Seq<Piece>, i: int, deleted: bool)
    requires
        0 <= i < pieces.len(),
    ensures
        laid_out(pieces, deleted) == laid_out(pieces.take(i), deleted) + shown(pieces[i], deleted)
            + laid_out(pieces.skip(i + 1), deleted),
        laid_out(pieces.take(i + 1), deleted) == laid_out(pieces.take(i), deleted) + shown(
            pieces[i],
            deleted,
        ),
{
    let one = seq![pieces[i]];
    assert(pieces.take(i) + one =~= pieces.take(i + 1));
    assert(pieces =~= pieces.take(i + 1) + pieces.skip(i + 1));
    lemma_layout_concat(pieces.take(i), one, deleted);
    lemma_layout_concat(pieces.take(i + 1), pieces.skip(i + 1), deleted);
    lemma_layout_one(pieces[i], deleted);
}

/// Deleted pieces hold nothing that a reader sees.
pub proof fn lemma_layout_deleted(pieces: Seq<Piece>)
    requires
        forall|i: int| 0 <= i < pieces.len() ==> (#[trigger] pieces[i]).coord.tombstone,
    ensures
        text(pieces) == Seq::<BytePlace>::empty(),
    decreases pieces.len(),
{
    if pieces.len() > 0 {
        assert(pieces.last() == pieces[pieces.len() - 1]);
        assert forall|i: int| 0 <= i < pieces.drop_last().len() implies (
        #[trigger] pieces.drop_last()[i]).coord.tombstone by {
            assert(pieces.drop_last()[i] == pieces[i]);
        }
        lemma_layout_deleted(pieces.drop_last());
    }
}

} // verus!
