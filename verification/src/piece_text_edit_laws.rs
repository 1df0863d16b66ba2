//! What a whole edit does to the chain of a document, in the tree and in memory.

use vstd::prelude::*;

use crate::piece_text::{
    AddressView, BufferCoord, PieceCoord, PieceTextEditItemManifest, MAX_BUFFER_LEN_BYTES,
};
use crate::piece_text_chain::{
    anchors, apart, bytes_of, cut_out, disjoint, distinct, has_piece, history, id_at, is_chain, knows, lemma_layout_at,
    live_place, spliced, text, whole, Piece,
};
use crate::piece_text_chain_splices::is_fresh;
use crate::piece_text_chain_walks::{lemma_chain_disjoint, lemma_chain_ends, lemma_chain_len, lemma_lookup};
use crate::piece_text_edit::{delete_text, has_read_all, insert_piece};
use crate::piece_text_edit_writes::{
    added_rows, changed_rows, follows, has_id, has_no_others, is_unedited, law_chains_settle_rows,
    lemma_chain_ids_match, lemma_delete_follows, lemma_follows_self, lemma_follows_then,
    lemma_found_coords, lemma_ids_after, lemma_insert_follows, row_with,
};
use crate::piece_text_laws::{
    deleted_chain, has_room, history_with, inserted_chain, law_delete_cuts_text,
    law_delete_refuses_unknown, law_insert_refuses_unknown, law_insert_splices_text,
};
use crate::piece_text_overlay::{whole_buffer, EditState, OverlayRest};
use crate::piece_text_planner::{
    buffers_fault, lengths_by_id, unknown_buffer, BufferInsertView, BufferMeta, OutputView,
    PlanState,
};
use crate::piece_text_resolution::{Doc, EditError};
use crate::piece_text_staging::{edit_output, if_moved};

verus! {

/// The chain of a document between two operations of an edit.
pub struct ChainState {
    pub pieces: Seq<Piece>,
    pub next_piece_id: i64,
    pub next_buffer_id: i64,
    /// The buffers that the edit has added.
    pub allocated: Set<i64>,
}

/// The coordinate may be referred to: it is known, and not of a buffer that the
/// same edit has added.
pub open spec fn may_refer(c: ChainState, at: BufferCoord) -> bool {
    knows(c.pieces, at) && !c.allocated.contains(at.buffer_id)
}

impl ChainState {
    /// The state with other pieces. New pieces have taken the next ids.
    pub open spec fn with_pieces(self, pieces: Seq<Piece>) -> ChainState {
        ChainState {
            pieces,
            next_piece_id: (self.next_piece_id + pieces.len() - self.pieces.len()) as i64,
            ..self
        }
    }

    /// One operation of an edit, unless it is refused.
    pub open spec fn step(self, op: PieceTextEditItemManifest) -> Option<ChainState> {
        match op {
            PieceTextEditItemManifest::Insert { at, inserted } => if may_refer(self, at) && 0
                < inserted.len_bytes <= MAX_BUFFER_LEN_BYTES && self.next_buffer_id < i64::MAX {
                let coord = whole_buffer(self.next_buffer_id, inserted.len_bytes);
                let after = self.with_pieces(
                    inserted_chain(self.pieces, self.next_piece_id, at, coord),
                );
                Some(
                    ChainState {
                        next_buffer_id: (self.next_buffer_id + 1) as i64,
                        allocated: self.allocated.insert(self.next_buffer_id),
                        ..after
                    },
                )
            } else {
                None
            },
            PieceTextEditItemManifest::Delete { start, end } => if may_refer(self, start) && may_refer(
                self,
                end,
            ) && live_place(self.pieces, start) <= live_place(self.pieces, end) {
                Some(
                    self.with_pieces(deleted_chain(self.pieces, self.next_piece_id, start, end)),
                )
            } else {
                None
            },
        }
    }

    /// Operations in their order, unless one of them is refused.
    pub open spec fn steps(self, ops: Seq<PieceTextEditItemManifest>) -> Option<ChainState>
        decreases ops.len(),
    {
        if ops.len() == 0 {
            Some(self)
        } else {
            match self.steps(ops.drop_last()) {
                Some(before) => before.step(ops.last()),
                None => None,
            }
        }
    }

    /// There is room for what so many more operations add.
    pub open spec fn has_room_for(self, n: int) -> bool {
        &&& self.pieces.len() + 2 * n < u32::MAX - 1
        &&& self.next_piece_id + 2 * n < i64::MAX - 1
    }
}

/// The document's chain and counters are those of the state, and new buffers get
/// ids that no piece refers to.
pub open spec fn is_state<E>(doc: Doc<E>, c: ChainState) -> bool {
    &&& is_chain(doc, c.pieces)
    &&& doc.next_piece_id == c.next_piece_id
    &&& c.next_buffer_id > 0
    &&& !c.allocated.contains(0)
    &&& forall|i: int|
        0 <= i < c.pieces.len() ==> (#[trigger] c.pieces[i]).coord.buffer_id < c.next_buffer_id
}

/// What an operation does to the text of a document.
pub open spec fn changes_text(c: ChainState, op: PieceTextEditItemManifest, after: ChainState) -> bool {
    match op {
        PieceTextEditItemManifest::Insert { at, inserted } => {
            let what = bytes_of(whole_buffer(c.next_buffer_id, inserted.len_bytes));
            &&& text(after.pieces) == spliced(text(c.pieces), live_place(c.pieces, at), what)
            &&& history_with(history(c.pieces), history(after.pieces), what)
        },
        PieceTextEditItemManifest::Delete { start, end } => {
            &&& text(after.pieces) == cut_out(
                text(c.pieces),
                live_place(c.pieces, start),
                live_place(c.pieces, end),
            )
            &&& history(after.pieces) == history(c.pieces)
        },
    }
}

/// The document after one operation that is not refused.
pub open spec fn op_result<E>(doc: Doc<E>, c: ChainState, op: PieceTextEditItemManifest) -> (
    Doc<E>,
    Result<(), EditError<E>>,
) {
    match op {
        PieceTextEditItemManifest::Insert { at, inserted } => insert_piece(
            doc,
            at,
            whole_buffer(c.next_buffer_id, inserted.len_bytes),
        ),
        PieceTextEditItemManifest::Delete { start, end } => delete_text(doc, start, end),
    }
}

proof fn lemma_new_buffer_fresh<E>(doc: Doc<E>, c: ChainState, len_bytes: u32)
    requires
        is_state(doc, c),
        len_bytes > 0,
    ensures
        is_fresh(c.pieces, whole_buffer(c.next_buffer_id, len_bytes)),
{
    let coord = whole_buffer(c.next_buffer_id, len_bytes);
    assert forall|j: int| 0 <= j < c.pieces.len() implies apart((#[trigger] c.pieces[j]).coord, coord) by {
        assert(c.pieces[j].coord.buffer_id < c.next_buffer_id);
    }
}

pub open spec fn has_buffer(pieces: Seq<Piece>, buffer_id: i64) -> bool {
    exists|i: int| 0 <= i < pieces.len() && (#[trigger] pieces[i]).coord.buffer_id == buffer_id
}

proof fn lemma_piece_of_byte(pieces: Seq<Piece>, k: int)
    requires
        0 <= k < history(pieces).len(),
    ensures
        has_buffer(pieces, history(pieces)[k].buffer_id),
    decreases pieces.len(),
{
    let rest = pieces.drop_last();
    if k < history(rest).len() {
        lemma_piece_of_byte(rest, k);
        let i = choose|i: int|
            0 <= i < rest.len() && (#[trigger] rest[i]).coord.buffer_id == history(rest)[k].buffer_id;
        assert(pieces[i] == rest[i]);
    } else {
        assert(pieces[pieces.len() - 1] == pieces.last());
    }
}

/// The buffers of the pieces after an operation are those from before, and the
/// one that an insert has added.
proof fn lemma_buffers_after(c: ChainState, op: PieceTextEditItemManifest, after: ChainState, j: int)
    requires
        disjoint(after.pieces),
        changes_text(c, op, after),
        0 <= j < after.pieces.len(),
    ensures
        has_buffer(c.pieces, after.pieces[j].coord.buffer_id) || (op is Insert
            && after.pieces[j].coord.buffer_id == c.next_buffer_id),
{
    let b = after.pieces[j].coord.buffer_id;
    assert(whole(after.pieces[j].coord));
    lemma_layout_at(after.pieces, j, true);
    let k = history(after.pieces.take(j)).len() as int;
    assert(history(after.pieces)[k] == bytes_of(after.pieces[j].coord)[0]);
    assert(history(after.pieces)[k].buffer_id == b);
    let before = history(c.pieces);
    match op {
        PieceTextEditItemManifest::Insert { at, inserted } => {
            let what = bytes_of(whole_buffer(c.next_buffer_id, inserted.len_bytes));
            let place = choose|place: int|
                0 <= place <= before.len() && history(after.pieces) == #[trigger] spliced(
                    before,
                    place,
                    what,
                );
            if k < place {
                assert(before[k].buffer_id == b);
                lemma_piece_of_byte(c.pieces, k);
            } else if k >= place + what.len() {
                assert(k < history(after.pieces).len() == before.len() + what.len());
                assert(history(after.pieces)[k] == before.skip(place)[k - place - what.len()]);
                assert(before[k - what.len()].buffer_id == b);
                lemma_piece_of_byte(c.pieces, k - what.len());
            } else {
                assert(what[k - place].buffer_id == b);
            }
        },
        PieceTextEditItemManifest::Delete { .. } => {
            lemma_piece_of_byte(c.pieces, k);
        },
    }
}

/// An operation that is not refused takes the document to the next state of its
/// chain, and changes its text as the operation says.
pub proof fn law_operation<E>(doc: Doc<E>, c: ChainState, op: PieceTextEditItemManifest)
    requires
        is_state(doc, c),
        c.has_room_for(1),
        c.step(op) is Some,
    ensures
        op_result(doc, c, op).1 is Ok,
        is_state(op_result(doc, c, op).0, c.step(op)->Some_0),
        changes_text(c, op, c.step(op)->Some_0),
        c.step(op)->Some_0.pieces.len() <= c.pieces.len() + 2,
        c.step(op)->Some_0.next_piece_id <= c.next_piece_id + 2,
{
    let after = c.step(op)->Some_0;
    let d = op_result(doc, c, op).0;
    assert(has_room(doc, c.pieces));
    match op {
        PieceTextEditItemManifest::Insert { at, inserted } => {
            let coord = whole_buffer(c.next_buffer_id, inserted.len_bytes);
            lemma_new_buffer_fresh(doc, c, inserted.len_bytes);
            law_insert_splices_text(doc, c.pieces, at, coord);
        },
        PieceTextEditItemManifest::Delete { start, end } => {
            law_delete_cuts_text(doc, c.pieces, start, end);
        },
    }
    lemma_chain_disjoint(d, after.pieces);
    assert forall|j: int| 0 <= j < after.pieces.len() implies (
    #[trigger] after.pieces[j]).coord.buffer_id < after.next_buffer_id by {
        lemma_buffers_after(c, op, after, j);
        let b = after.pieces[j].coord.buffer_id;
        if has_buffer(c.pieces, b) {
            let i = choose|i: int|
                0 <= i < c.pieces.len() && (#[trigger] c.pieces[i]).coord.buffer_id == b;
            assert(c.pieces[i].coord.buffer_id < c.next_buffer_id);
        }
    }
}

/// The operation's document, where a coordinate is not known or the places are in
/// the wrong order.
proof fn lemma_refused<E>(doc: Doc<E>, c: ChainState, op: PieceTextEditItemManifest)
    requires
        is_state(doc, c),
        c.has_room_for(1),
        match op {
            PieceTextEditItemManifest::Insert { at, .. } => !knows(c.pieces, at),
            PieceTextEditItemManifest::Delete { start, end } => !knows(c.pieces, start) || !knows(
                c.pieces,
                end,
            ) || live_place(c.pieces, start) > live_place(c.pieces, end),
        },
    ensures
        op_result(doc, c, op).1 is Err,
{
    assert(has_room(doc, c.pieces));
    match op {
        PieceTextEditItemManifest::Insert { at, inserted } => {
            law_insert_refuses_unknown(
                doc,
                c.pieces,
                at,
                whole_buffer(c.next_buffer_id, inserted.len_bytes),
            );
        },
        PieceTextEditItemManifest::Delete { start, end } => {
            if knows(c.pieces, start) && knows(c.pieces, end) {
                law_delete_cuts_text(doc, c.pieces, start, end);
            } else {
                law_delete_refuses_unknown(doc, c.pieces, start, end);
            }
        },
    }
}

// ---------- an edit on the tree ----------

pub open spec fn edit_is_at(state: EditState, c: ChainState) -> bool {
    &&& is_state(state.doc, c)
    &&& state.rest.next_buffer_id == c.next_buffer_id
    &&& state.allocated == c.allocated
}

/// One operation of an edit on the tree: it goes through exactly if the chain
/// takes it, and leaves the document with the chain's next state.
pub proof fn law_edit_step(state: EditState, c: ChainState, index: int, op: PieceTextEditItemManifest)
    requires
        edit_is_at(state, c),
        c.has_room_for(1),
    ensures
        match c.step(op) {
            Some(after) => state.step(index, op).1 is Ok && edit_is_at(state.step(index, op).0, after),
            None => state.step(index, op).1 is Err,
        },
{
    reveal(EditState::step);
    if c.step(op) is Some {
        law_operation(state.doc, c, op);
    } else {
        match op {
            PieceTextEditItemManifest::Insert { at, inserted } => {
                if !knows(c.pieces, at) {
                    lemma_refused(state.doc, c, op);
                }
            },
            PieceTextEditItemManifest::Delete { start, end } => {
                if !knows(c.pieces, start) || !knows(c.pieces, end) || live_place(c.pieces, start)
                    > live_place(c.pieces, end) {
                    lemma_refused(state.doc, c, op);
                }
            },
        }
    }
}

/// An edit on the tree goes through exactly if the chain takes all its
/// operations, and leaves the document with the chain that they lead to.
pub proof fn law_edit_steps(state: EditState, c: ChainState, ops: Seq<PieceTextEditItemManifest>)
    requires
        edit_is_at(state, c),
        c.has_room_for(ops.len() as int),
    ensures
        match c.steps(ops) {
            Some(after) => state.steps(ops).1 is Ok && edit_is_at(state.steps(ops).0, after),
            None => state.steps(ops).1 is Err,
        },
        c.steps(ops) matches Some(after) ==> after.pieces.len() <= c.pieces.len() + 2 * ops.len()
            && after.next_piece_id <= c.next_piece_id + 2 * ops.len(),
    decreases ops.len(),
{
    if ops.len() > 0 {
        law_edit_steps(state, c, ops.drop_last());
        if let Some(before) = c.steps(ops.drop_last()) {
            let at = state.steps(ops.drop_last()).0;
            law_edit_step(at, before, ops.len() - 1, ops.last());
            if before.step(ops.last()) is Some {
                law_operation(at.doc, before, ops.last());
            }
        }
    }
}

// ---------- an edit in memory ----------

/// The plan's buffers are those of the pieces that were there before the edit.
pub open spec fn plan_is_at(state: PlanState, c: ChainState) -> bool {
    &&& is_state(state.doc, c)
    &&& state.next_buffer_id == c.next_buffer_id
    &&& state.allocated == c.allocated
    &&& forall|i: int|
        0 <= i < c.pieces.len() ==> {
            let b = (#[trigger] c.pieces[i]).coord.buffer_id;
            state.known.contains_key(b) || c.allocated.contains(b)
        }
}

/// One operation of an edit in memory.
pub proof fn law_plan_step(state: PlanState, c: ChainState, index: int, op: PieceTextEditItemManifest)
    requires
        plan_is_at(state, c),
        c.has_room_for(1),
    ensures
        match c.step(op) {
            Some(after) => state.step(index, op).1 is Ok && plan_is_at(state.step(index, op).0, after),
            None => state.step(index, op).1 is Err,
        },
{
    reveal(PlanState::step);
    if c.step(op) is Some {
        law_operation(state.doc, c, op);
        let after = c.step(op)->Some_0;
        lemma_chain_disjoint(op_result(state.doc, c, op).0, after.pieces);
        match op {
            PieceTextEditItemManifest::Insert { at, inserted } => {
                lemma_referred_known(state, c, at);
            },
            PieceTextEditItemManifest::Delete { start, end } => {
                lemma_referred_known(state, c, start);
                lemma_referred_known(state, c, end);
            },
        }
        assert forall|j: int| 0 <= j < after.pieces.len() implies {
            let b = (#[trigger] after.pieces[j]).coord.buffer_id;
            state.known.contains_key(b) || after.allocated.contains(b)
        } by {
            lemma_buffers_after(c, op, after, j);
            let b = after.pieces[j].coord.buffer_id;
            if has_buffer(c.pieces, b) {
                let i = choose|i: int|
                    0 <= i < c.pieces.len() && (#[trigger] c.pieces[i]).coord.buffer_id == b;
                assert(state.known.contains_key(c.pieces[i].coord.buffer_id) || c.allocated.contains(b));
            }
        }
    } else {
        match op {
            PieceTextEditItemManifest::Insert { at, inserted } => {
                if !knows(c.pieces, at) {
                    lemma_refused(state.doc, c, op);
                }
            },
            PieceTextEditItemManifest::Delete { start, end } => {
                if !knows(c.pieces, start) || !knows(c.pieces, end) || live_place(c.pieces, start)
                    > live_place(c.pieces, end) {
                    lemma_refused(state.doc, c, op);
                }
            },
        }
    }
}

proof fn lemma_referred_known(state: PlanState, c: ChainState, at: BufferCoord)
    requires
        plan_is_at(state, c),
        may_refer(c, at),
    ensures
        unknown_buffer(state.known, at) is None,
{
    if at != BufferCoord::document_start() {
        let i = choose|i: int| anchors(c.pieces, at, i);
        assert(state.known.contains_key(c.pieces[i].coord.buffer_id) || c.allocated.contains(
            c.pieces[i].coord.buffer_id,
        ));
    }
}

/// An edit in memory goes through exactly if the chain takes all its operations,
/// and leaves the document with the chain that they lead to.
pub proof fn law_plan_steps(state: PlanState, c: ChainState, ops: Seq<PieceTextEditItemManifest>)
    requires
        plan_is_at(state, c),
        c.has_room_for(ops.len() as int),
    ensures
        match c.steps(ops) {
            Some(after) => state.steps(ops).1 is Ok && plan_is_at(state.steps(ops).0, after),
            None => state.steps(ops).1 is Err,
        },
        c.steps(ops) matches Some(after) ==> after.pieces.len() <= c.pieces.len() + 2 * ops.len()
            && after.next_piece_id <= c.next_piece_id + 2 * ops.len(),
    decreases ops.len(),
{
    if ops.len() > 0 {
        law_plan_steps(state, c, ops.drop_last());
        if let Some(before) = c.steps(ops.drop_last()) {
            let at = state.steps(ops.drop_last()).0;
            law_plan_step(at, before, ops.len() - 1, ops.last());
            if before.step(ops.last()) is Some {
                law_operation(at.doc, before, ops.last());
            }
        }
    }
}

// ---------- what is written ----------

/// The buffers that operations add.
pub open spec fn added_buffers(
    owner: AddressView,
    author_id: i64,
    next_buffer_id: i64,
    ops: Seq<PieceTextEditItemManifest>,
) -> Seq<BufferInsertView>
    decreases ops.len(),
{
    if ops.len() == 0 {
        Seq::empty()
    } else {
        let before = added_buffers(owner, author_id, next_buffer_id, ops.drop_last());
        match ops.last() {
            PieceTextEditItemManifest::Insert { inserted, .. } => before.push(
                BufferInsertView {
                    new_id: (next_buffer_id + before.len()) as i64,
                    owner,
                    author_id,
                    len_bytes: inserted.len_bytes,
                    ciphertext_value_hash: inserted.ciphertext_value_hash,
                },
            ),
            PieceTextEditItemManifest::Delete { .. } => before,
        }
    }
}

/// The writes of an edit that takes the chain of a document from one state to
/// another.
pub open spec fn chain_writes(
    list_number: i64,
    c: ChainState,
    after: ChainState,
    buffers: Seq<BufferInsertView>,
) -> OutputView {
    OutputView {
        piece_inserts: added_rows(
            list_number,
            after.pieces,
            c.next_piece_id as int,
            after.next_piece_id as int,
        ),
        piece_updates: changed_rows(list_number, c.pieces, after.pieces),
        buffer_inserts: buffers,
        head_update: if_moved(id_at(c.pieces, 0), id_at(after.pieces, 0)),
        tail_update: if_moved(
            id_at(c.pieces, c.pieces.len() - 1),
            id_at(after.pieces, after.pieces.len() - 1),
        ),
        piece_next_id_post: if after.next_piece_id != c.next_piece_id {
            Some(after.next_piece_id)
        } else {
            None
        },
        buffers_next_id_post: if buffers.len() > 0 {
            Some(after.next_buffer_id)
        } else {
            None
        },
        ..OutputView::empty()
    }
}

/// Two outputs make the same writes, whatever was read for them.
pub open spec fn same_writes(a: OutputView, b: OutputView) -> bool {
    a == (OutputView { trace: a.trace, ..b })
}

/// A coordinate of the operation is in the buffer.
pub open spec fn names_buffer(op: PieceTextEditItemManifest, buffer_id: i64) -> bool {
    match op {
        PieceTextEditItemManifest::Insert { at, .. } => at.buffer_id == buffer_id,
        PieceTextEditItemManifest::Delete { start, end } => start.buffer_id == buffer_id || end.buffer_id == buffer_id,
    }
}

proof fn lemma_operation_follows<E>(doc: Doc<E>, c: ChainState, op: PieceTextEditItemManifest)
    requires
        is_state(doc, c),
        doc.ids_match(),
        c.has_room_for(1),
        c.step(op) is Some,
    ensures
        follows(doc, op_result(doc, c, op).0),
        forall|b: i64|
            b > 0 && #[trigger] names_buffer(op, b) ==> has_read_all(doc, op_result(doc, c, op).0, b),
        op_result(doc, c, op).0.ids_match(),
        c.step(op)->Some_0.next_piece_id - c.next_piece_id == c.step(op)->Some_0.pieces.len()
            - c.pieces.len(),
{
    law_operation(doc, c, op);
    let d = op_result(doc, c, op).0;
    match op {
        PieceTextEditItemManifest::Insert { at, inserted } => {
            lemma_insert_follows(doc, at, whole_buffer(c.next_buffer_id, inserted.len_bytes));
        },
        PieceTextEditItemManifest::Delete { start, end } => {
            lemma_delete_follows(doc, start, end);
        },
    }
    assert(d.ids_match() && doc.next_piece_id <= d.next_piece_id) by {
        reveal(follows);
    }
    lemma_chain_len(doc, c.pieces);
}

/// The output of an edit over what was read, from the document that it leaves.
proof fn lemma_output<E>(
    start: Doc<E>,
    c: ChainState,
    doc: Doc<E>,
    after: ChainState,
    buffers: Seq<BufferInsertView>,
    found: Seq<(i64, PieceCoord)>,
)
    requires
        is_state(start, c),
        has_no_others(start, c.pieces),
        is_unedited(start),
        follows(start, doc),
        is_state(doc, after),
        after.next_piece_id - c.next_piece_id == after.pieces.len() - c.pieces.len(),
    ensures
        same_writes(
            edit_output(doc, start.head_id(), start.tail_id(), buffers, after.next_buffer_id, found),
            chain_writes(start.list_number, c, after, buffers),
        ),
{
    law_chains_settle_rows(start, c.pieces, doc, after.pieces);
    lemma_chain_ends(start, c.pieces);
    lemma_chain_ends(doc, after.pieces);
    assert(start.next_piece_id <= doc.next_piece_id) by {
        reveal(follows);
    }
}

pub proof fn lemma_edit_follows(state: EditState, c: ChainState, ops: Seq<PieceTextEditItemManifest>)
    requires
        edit_is_at(state, c),
        state.doc.ids_match(),
        c.has_room_for(ops.len() as int),
        c.steps(ops) is Some,
    ensures
        ({
            let end = state.steps(ops).0;
            let after = c.steps(ops)->Some_0;
            let buffers = added_buffers(state.rest.owner, state.rest.author_id, c.next_buffer_id, ops);
            &&& follows(state.doc, end.doc)
            &&& end.doc.ids_match()
            &&& after.next_piece_id - c.next_piece_id == after.pieces.len() - c.pieces.len()
            &&& after.next_buffer_id == c.next_buffer_id + buffers.len()
            &&& end.rest == (OverlayRest {
                next_buffer_id: after.next_buffer_id,
                buffers: state.rest.buffers + buffers,
                ..state.rest
            })
        }),
    decreases ops.len(),
{
    reveal(EditState::step);
    let owner = state.rest.owner;
    let author_id = state.rest.author_id;
    if ops.len() == 0 {
        lemma_follows_self(state.doc);
        assert(state.rest.buffers + added_buffers(owner, author_id, c.next_buffer_id, ops)
            =~= state.rest.buffers);
    } else {
        let rest = ops.drop_last();
        lemma_edit_follows(state, c, rest);
        law_edit_steps(state, c, rest);
        let before = c.steps(rest)->Some_0;
        let at = state.steps(rest).0;
        lemma_operation_follows(at.doc, before, ops.last());
        law_operation(at.doc, before, ops.last());
        let end = state.steps(ops).0;
        lemma_follows_then(state.doc, at.doc, end.doc);
        let buffers = added_buffers(owner, author_id, c.next_buffer_id, ops);
        assert(end.rest.buffers =~= state.rest.buffers + buffers);
    }
}

/// An edit on the tree writes what the chain before it and the chain after it
/// call for.
pub proof fn law_edit_writes(state: EditState, c: ChainState, ops: Seq<PieceTextEditItemManifest>)
    requires
        edit_is_at(state, c),
        is_unedited(state.doc),
        has_no_others(state.doc, c.pieces),
        state.rest.pre_head_id == state.doc.head_id(),
        state.rest.pre_tail_id == state.doc.tail_id(),
        state.rest.buffers == Seq::<BufferInsertView>::empty(),
        c.has_room_for(ops.len() as int),
        c.steps(ops) is Some,
    ensures
        state.steps(ops).1 is Ok,
        same_writes(
            state.steps(ops).0.output(),
            chain_writes(
                state.doc.list_number,
                c,
                c.steps(ops)->Some_0,
                added_buffers(state.rest.owner, state.rest.author_id, c.next_buffer_id, ops),
            ),
        ),
{
    law_edit_steps(state, c, ops);
    lemma_chain_ids_match(state.doc, c.pieces);
    lemma_edit_follows(state, c, ops);
    let end = state.steps(ops).0;
    let after = c.steps(ops)->Some_0;
    let buffers = added_buffers(state.rest.owner, state.rest.author_id, c.next_buffer_id, ops);
    assert(end.rest.buffers =~= buffers);
    lemma_output(state.doc, c, end.doc, after, buffers, end.doc.found_coords());
}

/// Of an edit on the tree: its chain has the ids of the chain before it and those
/// that were added, and what it found are the ranges of the chain before it.
pub proof fn lemma_edit_ids(state: EditState, c: ChainState, ops: Seq<PieceTextEditItemManifest>)
    requires
        edit_is_at(state, c),
        is_unedited(state.doc),
        has_no_others(state.doc, c.pieces),
        c.has_room_for(ops.len() as int),
        c.steps(ops) is Some,
    ensures
        ({
            let after = c.steps(ops)->Some_0;
            let found = state.steps(ops).0.doc.found_coords();
            &&& distinct(c.pieces)
            &&& distinct(after.pieces)
            &&& c.next_piece_id <= after.next_piece_id
            &&& forall|id: i64| #[trigger]
                has_id(after.pieces, id) <==> has_id(c.pieces, id) || c.next_piece_id <= id
                    < after.next_piece_id
            &&& forall|k: int|
                0 <= k < found.len() ==> has_id(c.pieces, (#[trigger] found[k]).0) && found[k].1
                    == row_with(state.doc.list_number, c.pieces, found[k].0).coord
        }),
{
    law_edit_steps(state, c, ops);
    lemma_chain_ids_match(state.doc, c.pieces);
    lemma_edit_follows(state, c, ops);
    let end = state.steps(ops).0;
    let after = c.steps(ops)->Some_0;
    lemma_ids_after(state.doc, c.pieces, end.doc, after.pieces);
    assert(c.next_piece_id <= after.next_piece_id) by {
        reveal(follows);
    }
    let found = end.doc.found_coords();
    assert forall|k: int| 0 <= k < found.len() implies has_id(c.pieces, (#[trigger] found[k]).0)
        && found[k].1 == row_with(state.doc.list_number, c.pieces, found[k].0).coord by {
        lemma_found_coords(state.doc, c.pieces, end.doc, k);
    }
}

/// An edit on the tree reads all rows of the buffers that the coordinates of its
/// operations are in, as they are when it comes to the operation.
pub proof fn lemma_edit_reads_rows(
    state: EditState,
    c: ChainState,
    ops: Seq<PieceTextEditItemManifest>,
    i: int,
    buffer_id: i64,
    id: i64,
)
    requires
        edit_is_at(state, c),
        state.doc.ids_match(),
        c.has_room_for(ops.len() as int),
        c.steps(ops) is Some,
        0 <= i < ops.len(),
        buffer_id > 0,
        names_buffer(ops[i], buffer_id),
        c.steps(ops.take(i)) matches Some(at) && has_piece(at.pieces, id, buffer_id),
    ensures
        state.steps(ops).0.doc.loaded.contains(id),
    decreases ops.len(),
{
    reveal(EditState::step);
    let rest = ops.drop_last();
    lemma_edit_follows(state, c, rest);
    law_edit_steps(state, c, rest);
    let before = c.steps(rest)->Some_0;
    let at = state.steps(rest).0;
    lemma_operation_follows(at.doc, before, ops.last());
    law_operation(at.doc, before, ops.last());
    let end = state.steps(ops).0;
    assert(end.doc == op_result(at.doc, before, ops.last()).0);
    if i == ops.len() - 1 {
        assert(ops.take(i) =~= rest);
        assert(ops[i] == ops.last());
        lemma_lookup(at.doc, before.pieces, buffer_id);
        let ids = (at.doc.candidates)(buffer_id)->Ok_0;
        assert(ids.contains(id));
        assert(has_read_all(at.doc, end.doc, buffer_id));
        assert(end.doc.loaded.contains(ids[ids.index_of(id)]));
    } else {
        assert(rest.take(i) =~= ops.take(i));
        assert(rest[i] == ops[i]);
        lemma_edit_reads_rows(state, c, rest, i, buffer_id, id);
        reveal(follows);
    }
}

proof fn lemma_plan_follows(state: PlanState, c: ChainState, ops: Seq<PieceTextEditItemManifest>)
    requires
        plan_is_at(state, c),
        state.doc.ids_match(),
        c.has_room_for(ops.len() as int),
        c.steps(ops) is Some,
    ensures
        ({
            let end = state.steps(ops).0;
            let after = c.steps(ops)->Some_0;
            let buffers = added_buffers(state.owner, state.author_id, c.next_buffer_id, ops);
            &&& follows(state.doc, end.doc)
            &&& end.doc.ids_match()
            &&& after.next_piece_id - c.next_piece_id == after.pieces.len() - c.pieces.len()
            &&& after.next_buffer_id == c.next_buffer_id + buffers.len()
            &&& end.buffers == state.buffers + buffers
            &&& end.owner == state.owner
            &&& end.author_id == state.author_id
        }),
    decreases ops.len(),
{
    reveal(PlanState::step);
    if ops.len() == 0 {
        lemma_follows_self(state.doc);
        assert(state.buffers + added_buffers(state.owner, state.author_id, c.next_buffer_id, ops)
            =~= state.buffers);
    } else {
        let rest = ops.drop_last();
        lemma_plan_follows(state, c, rest);
        law_plan_steps(state, c, rest);
        let before = c.steps(rest)->Some_0;
        let at = state.steps(rest).0;
        lemma_operation_follows(at.doc, before, ops.last());
        law_operation(at.doc, before, ops.last());
        law_plan_step(at, before, ops.len() - 1, ops.last());
        let end = state.steps(ops).0;
        lemma_follows_then(state.doc, at.doc, end.doc);
        let buffers = added_buffers(state.owner, state.author_id, c.next_buffer_id, ops);
        assert(end.buffers =~= state.buffers + buffers);
    }
}

/// An edit in memory writes what the chain before it and the chain after it call
/// for.
pub proof fn law_plan_writes(state: PlanState, c: ChainState, ops: Seq<PieceTextEditItemManifest>)
    requires
        plan_is_at(state, c),
        is_unedited(state.doc),
        has_no_others(state.doc, c.pieces),
        state.buffers == Seq::<BufferInsertView>::empty(),
        c.has_room_for(ops.len() as int),
        c.steps(ops) is Some,
    ensures
        state.steps(ops).1 is Ok,
        ({
            let end = state.steps(ops).0;
            same_writes(
                edit_output(
                    end.doc,
                    state.doc.head_id(),
                    state.doc.tail_id(),
                    end.buffers,
                    end.next_buffer_id,
                    Seq::empty(),
                ),
                chain_writes(
                    state.doc.list_number,
                    c,
                    c.steps(ops)->Some_0,
                    added_buffers(state.owner, state.author_id, c.next_buffer_id, ops),
                ),
            )
        }),
{
    law_plan_steps(state, c, ops);
    lemma_chain_ids_match(state.doc, c.pieces);
    lemma_plan_follows(state, c, ops);
    let end = state.steps(ops).0;
    let after = c.steps(ops)->Some_0;
    let buffers = added_buffers(state.owner, state.author_id, c.next_buffer_id, ops);
    assert(end.buffers =~= buffers);
    lemma_output(state.doc, c, end.doc, after, buffers, Seq::empty());
}

pub proof fn lemma_buffer_ids(next_id: i64, buffers: Seq<BufferMeta>, id: i64)
    requires
        buffers_fault(next_id, buffers) is None,
        lengths_by_id(buffers).contains_key(id),
    ensures
        0 < id < next_id,
    decreases buffers.len(),
{
    if id != buffers.last().id {
        lemma_buffer_ids(next_id, buffers.drop_last(), id);
    }
}

} // verus!
