//! Edits over the tree and in memory agree.

use vstd::prelude::*;

use crate::changelog::ChangelogError;
use crate::piece_text::{BufferCoord, PieceTextEditItemManifest};
use crate::piece_text_alike::{
    alike, lemma_alike_ids, lemma_delete_alike, lemma_insert_alike, lemma_same_writes, same_candidates,
    same_outcome, same_row,
};
use crate::piece_text_edit::{delete_start, lemma_delete_ends_only_read, resolve_coord};
use crate::piece_text_edit_laws::same_writes;
use crate::piece_text_net_changes::row_settled;
use crate::piece_text_overlay::{base_row, edit_doc, start_fault, start_state, whole_buffer, EditState};
use crate::piece_text_plan_laws::lemma_rows_in_buffer;
use crate::piece_text_planner::{
    lengths_by_id, plan, plan_start, rows_by_id, rows_in_buffer, snapshot_doc, snapshot_fault,
    unknown_buffer, BufferInsertView, BufferSnapshot, PieceSnapshot, PlanState, PlannerInput,
    ResolvePurpose,
};
use crate::piece_text_resolution::{lemma_matched_row, read_candidates, Doc};
use crate::piece_text_resolver::buffer_rows;
use crate::piece_text_snapshot_laws::{
    lemma_rows_by_id, lemma_snapshot_sound, lemma_start_kept, lemma_steps_kept, lemma_valid_rows_differ,
    plan_kept, with_lengths,
};
use crate::piece_text_upkeep::{row_sound, sound};
use crate::storage::Answers;

verus! {

// ---------- a tree that holds a snapshot ----------

/// The tree has the row of the snapshot under an id, or none.
pub open spec fn holds_row(answers: Answers, pieces: PieceSnapshot, id: i64) -> bool {
    let rows = rows_by_id(pieces.pieces@);
    match base_row(answers, pieces.list_number, id) {
        Ok(row) => rows.contains_key(id) && rows[id] == row,
        Err(_) => !rows.contains_key(id),
    }
}

/// The tree's index has the snapshot's rows of a buffer, each once, in any order.
pub open spec fn holds_buffer(answers: Answers, pieces: PieceSnapshot, buffer_id: i64) -> bool {
    let rows = rows_by_id(pieces.pieces@);
    &&& buffer_rows(answers, buffer_id) matches Ok(ids)
    &&& ids.no_duplicates()
    &&& forall|id: i64| #[trigger]
        ids.contains(id) <==> rows.contains_key(id) && rows[id].coord.buffer_id == buffer_id
}

/// The tree holds the rows of a snapshot and no others of its list, and its index
/// by buffers has them. How the rows are linked, and whether their ranges overlap,
/// is left open.
pub open spec fn tree_holds(answers: Answers, pieces: PieceSnapshot) -> bool {
    &&& forall|id: i64| #[trigger] holds_row(answers, pieces, id)
    &&& forall|buffer_id: i64| buffer_id > 0 ==> #[trigger] holds_buffer(answers, pieces, buffer_id)
}

spec fn tree_doc(answers: Answers, pieces: PieceSnapshot) -> Doc<ChangelogError> {
    edit_doc(
        answers,
        pieces.list_number,
        pieces.head_id,
        pieces.tail_id,
        pieces.pre_piece_next_id,
    )
}

proof fn lemma_start_alike(answers: Answers, pieces: PieceSnapshot, buffers: BufferSnapshot)
    requires
        snapshot_fault(pieces, buffers) is None,
        tree_holds(answers, pieces),
    ensures
        alike(tree_doc(answers, pieces), snapshot_doc(pieces)),
{
    let a = tree_doc(answers, pieces);
    let b = snapshot_doc(pieces);
    let all = pieces.pieces@;
    let rows = rows_by_id(all);
    let lengths = lengths_by_id(buffers.buffers@);
    lemma_snapshot_sound(pieces, buffers);
    lemma_valid_rows_differ(pieces.list_number, pieces.pre_piece_next_id, all);
    lemma_rows_by_id(all);
    assert forall|id: i64| #[trigger] same_row(a, b, id) by {
        assert(holds_row(answers, pieces, id));
        assert(row_sound(b, lengths, id));
    }
    assert forall|id: i64| (#[trigger] (a.base)(id)) is Ok implies (a.base)(id)->Ok_0.id == id by {
        assert(holds_row(answers, pieces, id));
        assert(row_sound(b, lengths, id));
    }
    assert forall|id: i64| (#[trigger] (b.base)(id)) is Ok implies (b.base)(id)->Ok_0.id == id by {
        assert(row_sound(b, lengths, id));
    }
    assert forall|id: i64| #[trigger] row_settled(a, id) by {
    }
    assert forall|id: i64| #[trigger] row_settled(b, id) by {
        assert(row_sound(b, lengths, id));
    }
    assert forall|buffer_id: i64| buffer_id > 0 implies #[trigger] same_candidates(a, b, buffer_id) by {
        assert(holds_buffer(answers, pieces, buffer_id));
        lemma_rows_in_buffer(all, buffer_id);
        let x = buffer_rows(answers, buffer_id)->Ok_0;
        let y = rows_in_buffer(all, buffer_id);
        assert((a.candidates)(buffer_id) == Ok::<Seq<i64>, ChangelogError>(x));
        assert forall|id: i64|
            #![trigger x.contains(id)]
            #![trigger y.contains(id)]
            x.contains(id) <==> y.contains(id) by {
            if x.contains(id) {
                let i = choose|i: int| 0 <= i < all.len() && (#[trigger] all[i]).id == id;
                assert(rows[all[i].id] == all[i]);
            }
            if y.contains(id) {
                let i = choose|i: int|
                    0 <= i < all.len() && (#[trigger] all[i]).id == id && all[i].coord.buffer_id == buffer_id;
                assert(rows.contains_key(all[i].id));
            }
        }
        assert forall|id: i64| #[trigger] x.contains(id) implies (a.at(id) matches Ok(row)
            && row.coord.buffer_id == buffer_id) by {
            assert(holds_row(answers, pieces, id));
        }
    }
}

// ---------- operations ----------

/// An edit over the tree and one in memory have come to the same.
spec fn states_alike(tree: EditState, memory: PlanState) -> bool {
    &&& alike(tree.doc, memory.doc)
    &&& tree.allocated == memory.allocated
    &&& tree.rest.next_buffer_id == memory.next_buffer_id
    &&& tree.rest.buffers == memory.buffers
    &&& tree.rest.owner == memory.owner
    &&& tree.rest.author_id == memory.author_id
    &&& forall|i: int|
        0 <= i < memory.buffers.len() ==> memory.allocated.contains((#[trigger] memory.buffers[i]).new_id)
}

proof fn lemma_known_buffer(lengths: Map<i64, u32>, buffers: Seq<BufferInsertView>, id: i64)
    requires
        with_lengths(lengths, buffers).contains_key(id),
    ensures
        lengths.contains_key(id) || exists|i: int| 0 <= i < buffers.len() && (#[trigger] buffers[i]).new_id == id,
    decreases buffers.len(),
{
    if buffers.len() > 0 {
        if id == buffers.last().new_id {
            assert(buffers[buffers.len() - 1].new_id == id);
        } else {
            let rest = buffers.drop_last();
            lemma_known_buffer(lengths, rest, id);
            if !lengths.contains_key(id) {
                let i = choose|i: int| 0 <= i < rest.len() && (#[trigger] rest[i]).new_id == id;
                assert(buffers[i].new_id == id);
            }
        }
    }
}

/// No row is found under a buffer that nothing is known of.
proof fn lemma_no_rows<A, B>(a: Doc<A>, b: Doc<B>, lengths: Map<i64, u32>, buffer_id: i64)
    requires
        alike(a, b),
        sound(b, lengths),
        buffer_id > 0,
        !lengths.contains_key(buffer_id),
    ensures
        (a.candidates)(buffer_id) == Ok::<Seq<i64>, A>(Seq::empty()),
{
    assert(same_candidates(a, b, buffer_id));
    let ids = (a.candidates)(buffer_id)->Ok_0;
    if ids.len() > 0 {
        assert(ids.contains(ids[0]));
        assert(same_row(a, b, ids[0]));
        assert(row_sound(b, lengths, ids[0]));
    }
    assert(ids =~= Seq::empty());
}

/// A coordinate of a buffer without rows lies nowhere.
proof fn lemma_nowhere<E>(doc: Doc<E>, coord: BufferCoord, purpose: ResolvePurpose)
    requires
        coord.buffer_id != 0,
        coord.buffer_id > 0 ==> (doc.candidates)(coord.buffer_id) == Ok::<Seq<i64>, E>(Seq::empty()),
    ensures
        resolve_coord(doc, coord, purpose).1 is Err,
{
    if coord.buffer_id > 0 {
        let d = doc.after_lookup(coord.buffer_id);
        let rows = read_candidates(d, coord.buffer_id, Seq::empty()).1->Ok_0;
        assert(rows =~= Seq::empty());
        lemma_matched_row(rows, coord.byte_pos);
    }
}

proof fn lemma_step_alike(
    start: PlanState,
    tree: EditState,
    memory: PlanState,
    index: int,
    op: PieceTextEditItemManifest,
)
    requires
        states_alike(tree, memory),
        plan_kept(start, memory),
    ensures
        same_outcome(tree.step(index, op).1, memory.step(index, op).1),
        memory.step(index, op).1 is Ok ==> states_alike(tree.step(index, op).0, memory.step(index, op).0),
        tree.step(index, op).0.rest.pre_head_id == tree.rest.pre_head_id,
        tree.step(index, op).0.rest.pre_tail_id == tree.rest.pre_tail_id,
{
    reveal(EditState::step);
    reveal(PlanState::step);
    let lengths = with_lengths(memory.known, memory.buffers);
    assert forall|b: i64|
        b > 0 && !memory.allocated.contains(b) && !memory.known.contains_key(b) implies (
    #[trigger] (tree.doc.candidates)(b)) == Ok::<Seq<i64>, ChangelogError>(Seq::empty()) by {
        if lengths.contains_key(b) {
            lemma_known_buffer(memory.known, memory.buffers, b);
        }
        lemma_no_rows(tree.doc, memory.doc, lengths, b);
    }
    match op {
        PieceTextEditItemManifest::Insert { at, inserted } => {
            let coord = whole_buffer(memory.next_buffer_id, inserted.len_bytes);
            if at.buffer_id != 0 && memory.allocated.contains(at.buffer_id) {
            } else if unknown_buffer(memory.known, at) is Some {
                lemma_nowhere(tree.doc, at, ResolvePurpose::InsertAnchor);
            } else {
                lemma_insert_alike(tree.doc, memory.doc, at, coord);
                let after = memory.step(index, op).0;
                if memory.step(index, op).1 is Ok {
                    assert forall|i: int| 0 <= i < after.buffers.len() implies after.allocated.contains(
                        (#[trigger] after.buffers[i]).new_id,
                    ) by {
                        if i < memory.buffers.len() {
                            assert(memory.allocated.contains(memory.buffers[i].new_id));
                        }
                    }
                }
            }
        },
        PieceTextEditItemManifest::Delete { start: from, end: to } => {
            lemma_delete_alike(tree.doc, memory.doc, from, to);
            if (from.buffer_id != 0 && memory.allocated.contains(from.buffer_id)) || (to.buffer_id != 0
                && memory.allocated.contains(to.buffer_id)) {
            } else if unknown_buffer(memory.known, from) is Some {
                lemma_nowhere(tree.doc, from, ResolvePurpose::DeleteStart);
            } else if unknown_buffer(memory.known, to) is Some {
                lemma_alike_ids(tree.doc, memory.doc);
                lemma_delete_ends_only_read(tree.doc, from);
                lemma_nowhere(delete_start(tree.doc, from).0, to, ResolvePurpose::DeleteEnd);
            }
        },
    }
}

proof fn lemma_steps_alike(start: PlanState, tree: EditState, ops: Seq<PieceTextEditItemManifest>)
    requires
        states_alike(tree, start),
        plan_kept(start, start),
    ensures
        same_outcome(tree.steps(ops).1, start.steps(ops).1),
        start.steps(ops).1 is Ok ==> states_alike(tree.steps(ops).0, start.steps(ops).0),
        tree.steps(ops).0.rest.pre_head_id == tree.rest.pre_head_id,
        tree.steps(ops).0.rest.pre_tail_id == tree.rest.pre_tail_id,
    decreases ops.len(),
{
    if ops.len() > 0 {
        let rest = ops.drop_last();
        lemma_steps_alike(start, tree, rest);
        if start.steps(rest).1 is Ok {
            lemma_steps_kept(start, rest);
            lemma_step_alike(start, tree.steps(rest).0, start.steps(rest).0, ops.len() - 1, ops.last());
        }
    }
}

// ---------- the law ----------

/// Where the tree holds the rows of a snapshot that an edit can be planned on, an
/// edit over the tree can be started, goes through exactly if the edit in memory
/// does, and makes the same writes. The rows may be any: rows that no end leads
/// to, and rows whose ranges overlap, are no exception.
pub proof fn law_tree_and_memory_agree(answers: Answers, input: PlannerInput)
    requires
        snapshot_fault(input.pieces, input.buffers) is None,
        tree_holds(answers, input.pieces),
    ensures
        start_fault(
            input.pieces.list_number,
            input.pieces.head_id,
            input.pieces.tail_id,
            input.pieces.pre_piece_next_id,
            input.buffers.pre_buffers_next_id,
        ) is None,
        ({
            let (end, r) = start_state(
                answers,
                input.envelope.address@,
                input.pieces.list_number,
                input.author_id,
                input.pieces.head_id,
                input.pieces.tail_id,
                input.pieces.pre_piece_next_id,
                input.buffers.pre_buffers_next_id,
            ).steps(input.envelope.edit.ops@);
            match plan(input) {
                Ok(output) => r is Ok && same_writes(end.output(), output),
                Err(_) => r is Err,
            }
        }),
{
    let ops = input.envelope.edit.ops@;
    let tree = start_state(
        answers,
        input.envelope.address@,
        input.pieces.list_number,
        input.author_id,
        input.pieces.head_id,
        input.pieces.tail_id,
        input.pieces.pre_piece_next_id,
        input.buffers.pre_buffers_next_id,
    );
    let memory = plan_start(input);
    let lengths = lengths_by_id(input.buffers.buffers@);
    lemma_start_alike(answers, input.pieces, input.buffers);
    lemma_start_kept(input);
    lemma_steps_alike(memory, tree, ops);
    if memory.steps(ops).1 is Ok {
        lemma_same_writes(tree.steps(ops).0.doc, memory.steps(ops).0.doc);
    }
    lemma_snapshot_sound(input.pieces, input.buffers);
    assert(row_sound(memory.doc, lengths, input.pieces.head_id));
    assert(row_sound(memory.doc, lengths, input.pieces.tail_id));
}

} // verus!
