//! Where coordinates of a document resolve to.

use vstd::prelude::*;

use crate::faults::EditFault;
use crate::piece_text::BufferCoord;
use crate::piece_text_chain::{anchors, has_piece, id_at, is_chain, is_linked, row_in, Piece};
use crate::piece_text_chain_walks::{
    lemma_anchor_unique, lemma_candidates_match, lemma_chain_disjoint, lemma_chain_ends, lemma_intact_chain,
    lemma_intact_then, lemma_lookup, lemma_read_candidates, lemma_read_piece,
};
use crate::piece_text_edit::resolve_coord;
use crate::piece_text_planner::{ClampDirection, ClampWalk, PieceRow, ResolvePurpose};
use crate::piece_text_resolution::{
    clamp_walk, matched_row, read_candidates, resolve_core, Doc, EditError, ResolveCoreOutput, ResolveCoreResult,
};
use crate::piece_text_resolver::{tree_doc, tree_resolution, IndexedResolveResult};
use crate::storage::Answers;

verus! {

// ---------- places ----------

/// The pieces from one to before another are deleted.
pub open spec fn deleted_from(pieces: Seq<Piece>, from: int, to: int) -> bool {
    forall|k: int| from <= k < to ==> (#[trigger] pieces[k]).coord.tombstone
}

/// The nearest live piece from a deleted one on, or the end of the document.
pub open spec fn is_next_live(pieces: Seq<Piece>, i: int, j: int) -> bool {
    &&& i < j <= pieces.len()
    &&& deleted_from(pieces, i, j)
    &&& j < pieces.len() ==> !pieces[j].coord.tombstone
}

/// The nearest live piece before a deleted one, or the place before the first.
pub open spec fn is_last_live(pieces: Seq<Piece>, i: int, j: int) -> bool {
    &&& -1 <= j < i
    &&& deleted_from(pieces, j + 1, i + 1)
    &&& j >= 0 ==> !pieces[j].coord.tombstone
}

/// Where a coordinate at the `i`-th piece resolves to. In a live piece it is so many
/// bytes from the piece's start. From a deleted piece the start of a deletion goes
/// on to the nearest live piece, anything else goes back to it; `hops` counts the
/// deleted pieces passed.
pub open spec fn resolves_to(
    list_number: i64,
    pieces: Seq<Piece>,
    at: BufferCoord,
    purpose: ResolvePurpose,
    i: int,
    result: ResolveCoreResult,
) -> bool {
    let start_row_id = pieces[i].id;
    if !pieces[i].coord.tombstone {
        result == (ResolveCoreResult::InRow {
            row: row_in(list_number, pieces, i),
            offset: (at.byte_pos - pieces[i].coord.start_byte) as u32,
        })
    } else if purpose == ResolvePurpose::DeleteStart {
        exists|j: int| #[trigger]
            is_next_live(pieces, i, j) && result == (if j < pieces.len() {
                ResolveCoreResult::ClampedToRow {
                    row: row_in(list_number, pieces, j),
                    start_row_id,
                    direction: ClampDirection::Forward,
                    hops: (j - i) as u32,
                }
            } else {
                ResolveCoreResult::ClampedAfterTail {
                    tail_id: pieces.last().id,
                    start_row_id,
                    direction: ClampDirection::Forward,
                    hops: (j - i) as u32,
                }
            })
    } else {
        exists|j: int| #[trigger]
            is_last_live(pieces, i, j) && result == (if j >= 0 {
                ResolveCoreResult::ClampedToRow {
                    row: row_in(list_number, pieces, j),
                    start_row_id,
                    direction: ClampDirection::Backward,
                    hops: (i - j) as u32,
                }
            } else {
                ResolveCoreResult::ClampedBeforeHead {
                    head_id: pieces[0].id,
                    start_row_id,
                    direction: ClampDirection::Backward,
                    hops: (i - j) as u32,
                }
            })
    }
}

// ---------- walks ----------

proof fn lemma_walk_back<E>(doc: Doc<E>, pieces: Seq<Piece>, start_row_id: i64, start: int, i: int)
    requires
        is_linked(doc, pieces),
        0 <= i <= start < pieces.len(),
        pieces.len() < u32::MAX - 1,
        deleted_from(pieces, i + 1, start + 1),
    ensures
        ({
            let hops = (start - i) as u32;
            let (d, r) = clamp_walk(doc, start_row_id, row_in(doc.list_number, pieces, i), ClampDirection::Backward, hops);
            &&& d.clamps == doc.clamps
            &&& d.lookups == doc.lookups
            &&& if !pieces[i].coord.tombstone {
                r == Ok::<ResolveCoreResult, EditError<E>>(
                    ResolveCoreResult::ClampedToRow {
                        row: row_in(doc.list_number, pieces, i),
                        start_row_id,
                        direction: ClampDirection::Backward,
                        hops,
                    },
                )
            } else {
                exists|j: int| #[trigger]
                    is_last_live(pieces, start, j) && r == Ok::<ResolveCoreResult, EditError<E>>(
                        if j >= 0 {
                            ResolveCoreResult::ClampedToRow {
                                row: row_in(doc.list_number, pieces, j),
                                start_row_id,
                                direction: ClampDirection::Backward,
                                hops: (start - j) as u32,
                            }
                        } else {
                            ResolveCoreResult::ClampedBeforeHead {
                                head_id: pieces[0].id,
                                start_row_id,
                                direction: ClampDirection::Backward,
                                hops: (start - j) as u32,
                            }
                        },
                    )
            }
        }),
    decreases i,
{
    lemma_read_piece(doc, pieces, i);
    lemma_chain_ends(doc, pieces);
    if pieces[i].coord.tombstone {
        if i > 0 {
            lemma_read_piece(doc, pieces, i - 1);
            let d = doc.read(pieces[i - 1].id).0;
            assert(deleted_from(pieces, i, start + 1));
            lemma_walk_back(d, pieces, start_row_id, start, i - 1);
            if !pieces[i - 1].coord.tombstone {
                assert(is_last_live(pieces, start, i - 1));
            }
        } else {
            assert(is_last_live(pieces, start, -1));
        }
    }
}

proof fn lemma_walk_on<E>(doc: Doc<E>, pieces: Seq<Piece>, start_row_id: i64, start: int, i: int)
    requires
        is_linked(doc, pieces),
        0 <= start <= i < pieces.len(),
        pieces.len() < u32::MAX - 1,
        deleted_from(pieces, start, i),
    ensures
        ({
            let hops = (i - start) as u32;
            let (d, r) = clamp_walk(doc, start_row_id, row_in(doc.list_number, pieces, i), ClampDirection::Forward, hops);
            &&& d.clamps == doc.clamps
            &&& d.lookups == doc.lookups
            &&& if !pieces[i].coord.tombstone {
                r == Ok::<ResolveCoreResult, EditError<E>>(
                    ResolveCoreResult::ClampedToRow {
                        row: row_in(doc.list_number, pieces, i),
                        start_row_id,
                        direction: ClampDirection::Forward,
                        hops,
                    },
                )
            } else {
                exists|j: int| #[trigger]
                    is_next_live(pieces, start, j) && r == Ok::<ResolveCoreResult, EditError<E>>(
                        if j < pieces.len() {
                            ResolveCoreResult::ClampedToRow {
                                row: row_in(doc.list_number, pieces, j),
                                start_row_id,
                                direction: ClampDirection::Forward,
                                hops: (j - start) as u32,
                            }
                        } else {
                            ResolveCoreResult::ClampedAfterTail {
                                tail_id: pieces.last().id,
                                start_row_id,
                                direction: ClampDirection::Forward,
                                hops: (j - start) as u32,
                            }
                        },
                    )
            }
        }),
    decreases pieces.len() - i,
{
    lemma_read_piece(doc, pieces, i);
    lemma_chain_ends(doc, pieces);
    if pieces[i].coord.tombstone {
        if i < pieces.len() - 1 {
            lemma_read_piece(doc, pieces, i + 1);
            let d = doc.read(pieces[i + 1].id).0;
            assert(deleted_from(pieces, start, i + 1));
            lemma_walk_on(d, pieces, start_row_id, start, i + 1);
            if !pieces[i + 1].coord.tombstone {
                assert(is_next_live(pieces, start, i + 1));
            }
        } else {
            assert(is_next_live(pieces, start, pieces.len() as int));
        }
    }
}

proof fn lemma_candidates_note_nothing<E>(doc: Doc<E>, buffer_id: i64, ids: Seq<i64>)
    ensures
        read_candidates(doc, buffer_id, ids).0.clamps == doc.clamps,
        read_candidates(doc, buffer_id, ids).0.lookups == doc.lookups,
    decreases ids.len(),
{
    if ids.len() > 0 {
        lemma_candidates_note_nothing(doc, buffer_id, ids.drop_last());
    }
}

// ---------- laws ----------

/// A coordinate of a well-formed document resolves to the piece that it lies at, or
/// to the nearest live one; the start of the document is before its first piece; and
/// a coordinate that lies at no piece is unknown. The rows of its buffer are looked
/// up once, and all of them are counted.
pub proof fn law_resolution<E>(doc: Doc<E>, pieces: Seq<Piece>, at: BufferCoord, purpose: ResolvePurpose)
    requires
        is_chain(doc, pieces),
        pieces.len() < u32::MAX - 1,
    ensures
        ({
            let (d, r) = resolve_core(doc, at, purpose);
            &&& at.buffer_id == 0 && at.byte_pos == 0 ==> r == Ok::<ResolveCoreOutput, EditError<E>>(
                ResolveCoreOutput {
                    result: ResolveCoreResult::DocumentStart {
                        head_id: if pieces.len() > 0 {
                            pieces[0].id
                        } else {
                            0
                        },
                    },
                    candidate_count: 0,
                },
            ) && d.lookups == doc.lookups
            &&& at.buffer_id > 0 ==> {
                &&& (doc.candidates)(at.buffer_id) matches Ok(ids)
                &&& d.lookups == doc.lookups.push((at.buffer_id, ids))
                &&& forall|id: i64| #[trigger] ids.contains(id) <==> has_piece(pieces, id, at.buffer_id)
                &&& r is Ok <==> exists|i: int| #[trigger] anchors(pieces, at, i)
                &&& r matches Ok(out) ==> out.candidate_count == ids.len() as usize
                &&& r matches Err(e) ==> e == EditError::<E>::Fault(
                    EditFault::UnknownCoordinate { coord: at, purpose },
                )
            }
            &&& forall|i: int| #[trigger]
                anchors(pieces, at, i) && at.buffer_id > 0 ==> resolves_to(
                    doc.list_number,
                    pieces,
                    at,
                    purpose,
                    i,
                    r->Ok_0.result,
                )
            &&& d.clamps == doc.clamps
        }),
{
    lemma_chain_ends(doc, pieces);
    if at.buffer_id > 0 {
        lemma_lookup(doc, pieces, at.buffer_id);
        let ids = (doc.candidates)(at.buffer_id)->Ok_0;
        let d0 = doc.after_lookup(at.buffer_id);
        lemma_intact_chain(doc, d0, pieces);
        assert forall|k: int| 0 <= k < ids.len() implies has_piece(pieces, #[trigger] ids[k], at.buffer_id) by {
            assert(ids.contains(ids[k]));
        }
        lemma_read_candidates(d0, pieces, at.buffer_id, ids);
        lemma_candidates_note_nothing(d0, at.buffer_id, ids);
        let (d1, r1) = read_candidates(d0, at.buffer_id, ids);
        let rows = r1->Ok_0;
        lemma_intact_then(doc, d0, d1);
        lemma_intact_chain(d0, d1, pieces);
        lemma_candidates_match(d0, pieces, at, ids, rows);
        lemma_chain_disjoint(doc, pieces);
        if let Some(row) = matched_row(rows, at.byte_pos) {
            let j = choose|j: int| anchors(pieces, at, j) && row == #[trigger] row_in(doc.list_number, pieces, j);
            assert(anchors(pieces, at, j));
            if pieces[j].coord.tombstone {
                if purpose == ResolvePurpose::DeleteStart {
                    lemma_walk_on(d1, pieces, row.id, j, j);
                } else {
                    lemma_walk_back(d1, pieces, row.id, j, j);
                }
            }
            assert(resolves_to(
                doc.list_number,
                pieces,
                at,
                purpose,
                j,
                resolve_core(doc, at, purpose).1->Ok_0.result,
            ));
            assert forall|i: int| #[trigger] anchors(pieces, at, i) implies i == j by {
                lemma_anchor_unique(pieces, at, i, j);
            }
        }
    }
}

/// An edit notes a walk over deleted pieces, and only such a walk: from which row,
/// in which direction, for what, over how many, and to which row, if to any.
pub proof fn law_walks_are_noted<E>(
    doc: Doc<E>,
    pieces: Seq<Piece>,
    at: BufferCoord,
    purpose: ResolvePurpose,
    i: int,
)
    requires
        is_chain(doc, pieces),
        pieces.len() < u32::MAX - 1,
        at.buffer_id > 0,
        anchors(pieces, at, i),
    ensures
        ({
            let noted = resolve_coord(doc, at, purpose).0.clamps;
            let start_row_id = pieces[i].id;
            if !pieces[i].coord.tombstone {
                noted == doc.clamps
            } else if purpose == ResolvePurpose::DeleteStart {
                exists|j: int| #[trigger]
                    is_next_live(pieces, i, j) && noted == doc.clamps.push(
                        ClampWalk {
                            start_row_id,
                            direction: ClampDirection::Forward,
                            purpose,
                            hops: (j - i) as u32,
                            end_row_id: if j < pieces.len() {
                                Some(pieces[j].id)
                            } else {
                                None
                            },
                        },
                    )
            } else {
                exists|j: int| #[trigger]
                    is_last_live(pieces, i, j) && noted == doc.clamps.push(
                        ClampWalk {
                            start_row_id,
                            direction: ClampDirection::Backward,
                            purpose,
                            hops: (i - j) as u32,
                            end_row_id: if j >= 0 {
                                Some(pieces[j].id)
                            } else {
                                None
                            },
                        },
                    )
            }
        }),
{
    law_resolution(doc, pieces, at, purpose);
    let result = resolve_core(doc, at, purpose).1->Ok_0.result;
    assert(resolves_to(doc.list_number, pieces, at, purpose, i, result));
}

// ---------- over the tree ----------

/// The document with another next free id.
spec fn counted_on<E>(doc: Doc<E>, next: i64) -> Doc<E> {
    Doc { next_piece_id: next, ..doc }
}

proof fn lemma_candidates_uncounted<E>(doc: Doc<E>, next: i64, buffer_id: i64, ids: Seq<i64>)
    ensures
        read_candidates(counted_on(doc, next), buffer_id, ids) == (
            counted_on(read_candidates(doc, buffer_id, ids).0, next),
            read_candidates(doc, buffer_id, ids).1,
        ),
    decreases ids.len(),
{
    if ids.len() > 0 {
        lemma_candidates_uncounted(doc, next, buffer_id, ids.drop_last());
        let d = read_candidates(doc, buffer_id, ids.drop_last()).0;
        assert(counted_on(d, next).read(ids.last()) == (counted_on(d.read(ids.last()).0, next), d.read(ids.last()).1));
    }
}

proof fn lemma_walk_uncounted<E>(
    doc: Doc<E>,
    next: i64,
    start_row_id: i64,
    current: PieceRow,
    direction: ClampDirection,
    hops: u32,
)
    ensures
        clamp_walk(counted_on(doc, next), start_row_id, current, direction, hops) == (
            counted_on(clamp_walk(doc, start_row_id, current, direction, hops).0, next),
            clamp_walk(doc, start_row_id, current, direction, hops).1,
        ),
    decreases u32::MAX - hops,
{
    let id = crate::piece_text_resolution::neighbour(current, direction);
    assert(counted_on(doc, next).read(id) == (counted_on(doc.read(id).0, next), doc.read(id).1));
    if current.coord.tombstone && hops < u32::MAX && id != 0 {
        if let Ok(row) = doc.read(id).1 {
            lemma_walk_uncounted(doc.read(id).0, next, start_row_id, row, direction, (hops + 1) as u32);
        }
    }
}

proof fn lemma_resolution_uncounted<E>(doc: Doc<E>, next: i64, at: BufferCoord, purpose: ResolvePurpose)
    ensures
        resolve_core(counted_on(doc, next), at, purpose).1 == resolve_core(doc, at, purpose).1,
{
    if at.buffer_id > 0 {
        if let Ok(ids) = (doc.candidates)(at.buffer_id) {
            let d0 = doc.after_lookup(at.buffer_id);
            assert(counted_on(doc, next).after_lookup(at.buffer_id) == counted_on(d0, next));
            lemma_candidates_uncounted(d0, next, at.buffer_id, ids);
            let (d1, r1) = read_candidates(d0, at.buffer_id, ids);
            if let Ok(rows) = r1 {
                if let Some(row) = matched_row(rows, at.byte_pos) {
                    lemma_walk_uncounted(d1, next, row.id, row, purpose.clamp_direction(), 0);
                }
            }
        }
    }
}

/// Where a coordinate of a document that the tree keeps resolves to, and how much is
/// counted: the rows of its buffer, and the deleted rows passed. A malformed
/// coordinate is refused before anything is looked at. `next` is above the ids of
/// all rows.
pub proof fn law_tree_resolution(
    answers: Answers,
    list_number: i64,
    next: i64,
    pieces: Seq<Piece>,
    at: BufferCoord,
    purpose: ResolvePurpose,
)
    requires
        is_chain(Doc { next_piece_id: next, ..tree_doc(answers, list_number) }, pieces),
        pieces.len() < u32::MAX - 1,
    ensures
        ({
            let r = tree_resolution(answers, list_number, at, purpose);
            let well_formed = (at.buffer_id == 0 && at.byte_pos == 0) || (at.buffer_id > 0 && at.byte_pos % 4 == 0);
            &&& r is Ok <==> well_formed && (at.buffer_id == 0 || exists|i: int| #[trigger] anchors(pieces, at, i))
            &&& r is Ok && at.buffer_id == 0 ==> r->Ok_0.0 == (IndexedResolveResult::DocumentStart {
                head_id: id_at(pieces, 0),
            }) && r->Ok_0.1.k_per_buffer == 0 && r->Ok_0.1.tombstone_clamp_hops == 0
            &&& forall|i: int| #[trigger]
                anchors(pieces, at, i) && r is Ok && at.buffer_id > 0 ==> tree_resolves_to(
                    list_number,
                    pieces,
                    at,
                    purpose,
                    i,
                    r->Ok_0.0,
                    r->Ok_0.1.tombstone_clamp_hops,
                )
            &&& r is Ok && at.buffer_id > 0 ==> exists|ids: Seq<i64>|
                #![trigger ids.no_duplicates()]
                ids.no_duplicates() && r->Ok_0.1.k_per_buffer == ids.len() as usize && forall|id: i64| #[trigger]
                    ids.contains(id) <==> has_piece(pieces, id, at.buffer_id)
        }),
{
    let doc = Doc { next_piece_id: next, ..tree_doc(answers, list_number) };
    assert(doc == counted_on(tree_doc(answers, list_number), next));
    law_resolution(doc, pieces, at, purpose);
    lemma_resolution_uncounted(tree_doc(answers, list_number), next, at, purpose);
    lemma_chain_ends(doc, pieces);
    if at.buffer_id > 0 {
        lemma_lookup(doc, pieces, at.buffer_id);
        let ids = (doc.candidates)(at.buffer_id)->Ok_0;
        assert(ids.no_duplicates());
    }
    if let Ok(found) = tree_resolution(answers, list_number, at, purpose) {
        let result = resolve_core(doc, at, purpose).1->Ok_0.result;
        assert forall|i: int| #[trigger] anchors(pieces, at, i) && at.buffer_id > 0 implies tree_resolves_to(
            list_number,
            pieces,
            at,
            purpose,
            i,
            found.0,
            found.1.tombstone_clamp_hops,
        ) by {
            assert(resolves_to(list_number, pieces, at, purpose, i, result));
        }
    }
}

/// Where a coordinate at the `i`-th piece resolves to over the tree, and the deleted
/// rows passed.
pub open spec fn tree_resolves_to(
    list_number: i64,
    pieces: Seq<Piece>,
    at: BufferCoord,
    purpose: ResolvePurpose,
    i: int,
    result: IndexedResolveResult,
    passed: u32,
) -> bool {
    let start_row_id = pieces[i].id;
    if !pieces[i].coord.tombstone {
        passed == 0 && result == (IndexedResolveResult::InRow {
            row: row_in(list_number, pieces, i),
            offset: (at.byte_pos - pieces[i].coord.start_byte) as u32,
        })
    } else if purpose == ResolvePurpose::DeleteStart {
        exists|j: int| #[trigger]
            is_next_live(pieces, i, j) && passed == (j - i) as u32 && result == (if j < pieces.len() {
                IndexedResolveResult::ClampedToRow {
                    row: row_in(list_number, pieces, j),
                    direction: ClampDirection::Forward,
                    hops: passed,
                }
            } else {
                IndexedResolveResult::ClampedAfterTail { tail_id: pieces.last().id, start_row_id, hops: passed }
            })
    } else {
        exists|j: int| #[trigger]
            is_last_live(pieces, i, j) && passed == (i - j) as u32 && result == (if j >= 0 {
                IndexedResolveResult::ClampedToRow {
                    row: row_in(list_number, pieces, j),
                    direction: ClampDirection::Backward,
                    hops: passed,
                }
            } else {
                IndexedResolveResult::ClampedBeforeHead { head_id: pieces[0].id, start_row_id, hops: passed }
            })
    }
}

} // verus!
