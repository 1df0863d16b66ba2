//! Which rows of a document an edit comes to.

use vstd::prelude::*;

use crate::changelog::ChangelogEntry;
use crate::ops::piece_text_edit_acceptance_laws::rows_met;
use crate::ops::piece_text_edit_op::{edit_target, edited, EditChecks};
use crate::ops::piece_text_edit_op_laws::{chain_of, lemma_deletes_only, lemma_row_in_place, well_formed};
use crate::piece_text::{decode_message, insert_total, PieceCoord, PieceTextEditItemManifest};
use crate::piece_text_chain::{has_piece, Piece};
use crate::piece_text_edit_laws::{
    edit_is_at, is_state, law_edit_steps, lemma_edit_follows, lemma_edit_ids, lemma_edit_reads_rows, names_buffer,
    ChainState,
};
use crate::piece_text_edit_writes::{fresh_ids, follows, has_id, lemma_chain_ids_match, row_with};
use crate::piece_text_overlay::{start_state, EditState, OverlayRest};
use crate::piece_text_staging::lemma_ids_below;
use crate::storage::Answers;

verus! {

/// The row is one of those met.
pub open spec fn is_met(met: Seq<(i64, PieceCoord)>, id: i64) -> bool {
    exists|k: int| 0 <= k < met.len() && (#[trigger] met[k]).0 == id
}

/// One of the pieces has the id and the range.
pub open spec fn is_piece(pieces: Seq<Piece>, id: i64, coord: PieceCoord) -> bool {
    exists|i: int| 0 <= i < pieces.len() && (#[trigger] pieces[i]).id == id && pieces[i].coord == coord
}

/// When an edit comes to its operation at `i`, a coordinate of that operation is in the
/// buffer, and the row, which the edit did not add, lies in it.
pub open spec fn must_be_met(c: ChainState, ops: Seq<PieceTextEditItemManifest>, i: int, buffer_id: i64, id: i64) -> bool {
    &&& 0 <= i < ops.len()
    &&& buffer_id > 0
    &&& names_buffer(ops[i], buffer_id)
    &&& c.steps(ops.take(i)) matches Some(at)
    &&& has_piece(at.pieces, id, buffer_id)
    &&& id < c.next_piece_id
}

proof fn lemma_fewer_inserts(ops: Seq<PieceTextEditItemManifest>, n: int)
    requires
        0 <= n <= ops.len(),
        insert_total(ops) == 0,
    ensures
        insert_total(ops.take(n)) == 0,
    decreases ops.len(),
{
    if n == ops.len() {
        assert(ops.take(n) =~= ops);
    } else {
        assert(ops.drop_last().take(n) =~= ops.take(n));
        lemma_fewer_inserts(ops.drop_last(), n);
    }
}

/// The rows that an edit comes to are rows of the document with the ranges that they
/// had before it, in the order of their ids and each once. All rows of the buffers that
/// the coordinates of its operations are in are among them, but for rows that it added
/// itself.
pub proof fn law_edit_meets_rows(answers: Answers, checks: EditChecks, entry: ChangelogEntry, pieces: Seq<Piece>)
    requires
        decode_message(entry.message@) is Ok,
        edit_target(answers, checks, decode_message(entry.message@)->Ok_0) is Ok,
        ({
            let envelope = decode_message(entry.message@)->Ok_0;
            let target = edit_target(answers, checks, envelope)->Ok_0;
            &&& edited(answers, target, envelope, entry.uid as i64) is Ok
            &&& well_formed(answers, target, envelope.ops, pieces)
            &&& chain_of(target, pieces).has_room_for(envelope.ops.len() as int)
        }),
    ensures
        ({
            let envelope = decode_message(entry.message@)->Ok_0;
            let target = edit_target(answers, checks, envelope)->Ok_0;
            let met = rows_met(answers, checks, entry);
            &&& forall|j: int, k: int| 0 <= j < k < met.len() ==> (#[trigger] met[j]).0 < (#[trigger] met[k]).0
            &&& forall|k: int| 0 <= k < met.len() ==> is_piece(pieces, (#[trigger] met[k]).0, met[k].1)
            &&& forall|i: int, buffer_id: i64, id: i64| #[trigger]
                must_be_met(chain_of(target, pieces), envelope.ops, i, buffer_id, id) ==> is_met(met, id)
        }),
{
    let envelope = decode_message(entry.message@)->Ok_0;
    let target = edit_target(answers, checks, envelope)->Ok_0;
    let met = rows_met(answers, checks, entry);
    let ops = envelope.ops;
    let c = chain_of(target, pieces);
    let start = start_state(
        answers,
        envelope.address,
        target.list_number,
        entry.uid as i64,
        target.head_id,
        target.tail_id,
        target.next_piece_id,
        target.next_buffer_id,
    );
    let next = if insert_total(ops) > 0 {
        target.next_buffer_id
    } else {
        i64::MAX
    };
    let d = ChainState { next_buffer_id: next, ..c };
    let state = EditState { rest: OverlayRest { next_buffer_id: next, ..start.rest }, ..start };
    if insert_total(ops) == 0 {
        lemma_deletes_only(start, c, next, ops);
    } else {
        assert(d == c && state == start);
    }
    assert(is_state(state.doc, d));
    assert(edit_is_at(state, d));
    law_edit_steps(state, d, ops);
    lemma_edit_ids(state, d, ops);
    lemma_chain_ids_match(state.doc, d.pieces);
    lemma_edit_follows(state, d, ops);
    let doc = start.steps(ops).0.doc;
    assert(doc == state.steps(ops).0.doc);
    assert(met == doc.found_coords());
    let wanted = |id: i64| doc.loaded.contains(id) && !doc.new_ids.contains(id);
    let ids = doc.existing_ids();
    lemma_ids_below(wanted, i64::MAX + 1);
    assert(ids == crate::piece_text_staging::ids_below(wanted, i64::MAX + 1));
    assert forall|k: int| 0 <= k < met.len() implies (#[trigger] met[k]).0 == ids[k] by {}
    assert forall|j: int, k: int| 0 <= j < k < met.len() implies (#[trigger] met[j]).0 < (#[trigger] met[k]).0 by {
        assert(ids[j] < ids[k]);
    }
    assert forall|k: int| 0 <= k < met.len() implies is_piece(pieces, (#[trigger] met[k]).0, met[k].1) by {
        let id = met[k].0;
        assert(has_id(pieces, id));
        let i = choose|i: int| 0 <= i < pieces.len() && (#[trigger] pieces[i]).id == id;
        lemma_row_in_place(target.list_number, pieces, i);
        assert(met[k].1 == row_with(target.list_number, pieces, id).coord);
        assert(pieces[i].coord == met[k].1);
    }
    assert forall|i: int, buffer_id: i64, id: i64| #[trigger] must_be_met(c, ops, i, buffer_id, id) implies is_met(
        met,
        id,
    ) by {
        if insert_total(ops) == 0 {
            lemma_fewer_inserts(ops, i);
            lemma_deletes_only(start, c, next, ops.take(i));
        }
        lemma_edit_reads_rows(state, d, ops, i, buffer_id, id);
        lemma_edit_prefix(state, d, ops, i, id, buffer_id);
        assert(!doc.new_ids.contains(id)) by {
            reveal(follows);
            if doc.new_ids.contains(id) {
                let k = doc.new_ids.index_of(id);
                assert(fresh_ids(d.next_piece_id as int, doc.next_piece_id as int)[k] == id);
            }
        }
        assert(wanted(id));
        assert(ids.contains(id));
        assert(met[ids.index_of(id)].0 == id);
    }
}

/// A row of the chain at any time of an edit has a positive id.
proof fn lemma_edit_prefix(
    state: EditState,
    c: ChainState,
    ops: Seq<PieceTextEditItemManifest>,
    i: int,
    id: i64,
    buffer_id: i64,
)
    requires
        edit_is_at(state, c),
        c.has_room_for(ops.len() as int),
        0 <= i < ops.len(),
        c.steps(ops.take(i)) matches Some(at) && has_piece(at.pieces, id, buffer_id),
    ensures
        id > 0,
{
    law_edit_steps(state, c, ops.take(i));
    let at = c.steps(ops.take(i))->Some_0;
    let doc = state.steps(ops.take(i)).0.doc;
    let j = choose|j: int|
        0 <= j < at.pieces.len() && (#[trigger] at.pieces[j]).id == id && at.pieces[j].coord.buffer_id == buffer_id;
    reveal(crate::piece_text_chain::is_linked);
    assert(doc.at(at.pieces[j].id) is Ok);
}

} // verus!
