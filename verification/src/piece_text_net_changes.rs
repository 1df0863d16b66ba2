//! Only net changes of an edit are written.

use vstd::prelude::*;

use crate::piece_text::PieceCoord;
use crate::piece_text_edit_writes::is_unedited;
use crate::piece_text_overlay::{edit_doc, OverlayRest};
use crate::piece_text_planner::PieceRowUpdate;
use crate::piece_text_resolution::{Doc, EditError, ResolveEndpoint};
use crate::piece_text_staging::{edit_output, ids_below, ids_where, if_moved, row_change, row_changes};
use crate::storage::Answers;

verus! {

/// One call on a document under edit.
pub enum StoreCall {
    ReadRow { row_id: i64 },
    Lookup { buffer_id: i64 },
    ReadEndpoint { endpoint: ResolveEndpoint },
    SetPrev { row_id: i64, prev_id: i64 },
    SetNext { row_id: i64, next_id: i64 },
    SetCoord { row_id: i64, coord: PieceCoord },
    SetHead { head_id: i64 },
    SetTail { tail_id: i64 },
    AllocPieceId,
    InsertNewRow { row_id: i64, prev_id: i64, next_id: i64, coord: PieceCoord },
}

impl<E> Doc<E> {
    /// The document after a call, and whether the call succeeds.
    pub open spec fn call(self, call: StoreCall) -> (Doc<E>, Result<(), EditError<E>>) {
        match call {
            StoreCall::ReadRow { row_id } => (
                self.after_read(row_id),
                match self.at(row_id) {
                    Ok(_) => Ok(()),
                    Err(e) => Err(EditError::Store(e)),
                },
            ),
            StoreCall::Lookup { buffer_id } => (
                self.after_lookup(buffer_id),
                match (self.candidates)(buffer_id) {
                    Ok(_) => Ok(()),
                    Err(e) => Err(EditError::Store(e)),
                },
            ),
            StoreCall::ReadEndpoint { endpoint } => (
                self.after_endpoint(endpoint),
                match self.endpoint(endpoint) {
                    Ok(_) => Ok(()),
                    Err(e) => Err(EditError::Store(e)),
                },
            ),
            StoreCall::SetPrev { row_id, prev_id } => self.set_prev(row_id, prev_id),
            StoreCall::SetNext { row_id, next_id } => self.set_next(row_id, next_id),
            StoreCall::SetCoord { row_id, coord } => self.set_coord(row_id, coord),
            StoreCall::SetHead { head_id } => (self.set_head(head_id), Ok(())),
            StoreCall::SetTail { tail_id } => (self.set_tail(tail_id), Ok(())),
            StoreCall::AllocPieceId => (
                self.alloc_piece_id().0,
                match self.alloc_piece_id().1 {
                    Ok(_) => Ok(()),
                    Err(e) => Err(e),
                },
            ),
            StoreCall::InsertNewRow { row_id, prev_id, next_id, coord } => self.insert_new_row(
                row_id,
                prev_id,
                next_id,
                coord,
            ),
        }
    }

    /// The document after calls in their order, up to the first that fails.
    pub open spec fn calls(self, calls: Seq<StoreCall>) -> (Doc<E>, Result<(), EditError<E>>)
        decreases calls.len(),
    {
        if calls.len() == 0 {
            (self, Ok(()))
        } else {
            let (before, r) = self.calls(calls.drop_last());
            match r {
                Err(e) => (before, Err(e)),
                Ok(_) => before.call(calls.last()),
            }
        }
    }
}

// ---------- what calls leave alone ----------

/// What holds of a row in the course of an edit: it is as it was unless it was
/// read, and one that was there keeps its id and its list.
pub open spec fn row_settled<E>(doc: Doc<E>, id: i64) -> bool {
    &&& doc.new_ids.contains(id) ==> doc.loaded.contains(id)
    &&& doc.loaded.contains(id) ==> (doc.at(id) matches Ok(row) && row.id == id)
    &&& !doc.loaded.contains(id) ==> doc.at(id) == (doc.base)(id)
    &&& doc.loaded.contains(id) && !doc.new_ids.contains(id) ==> ((doc.base)(id) matches Ok(before)
        && before.id == id && before.list_number == doc.at(id)->Ok_0.list_number)
}

pub open spec fn settled<E>(doc: Doc<E>) -> bool {
    &&& forall|id: i64| #[trigger] row_settled(doc, id)
    &&& forall|id: i64| (#[trigger] (doc.base)(id)) matches Ok(row) ==> row.id == id
}

pub proof fn lemma_call_settled<E>(doc: Doc<E>, call: StoreCall)
    requires
        settled(doc),
        doc.call(call).1 is Ok,
    ensures
        settled(doc.call(call).0),
        doc.call(call).0.base == doc.base,
{
    let d = doc.call(call).0;
    assert forall|id: i64| #[trigger] row_settled(d, id) by {
        assert(row_settled(doc, id));
        match call {
            StoreCall::InsertNewRow { row_id, prev_id, next_id, coord } => {
                assert(d.new_ids == doc.new_ids.push(row_id));
                assert(d.new_ids.contains(id) <==> doc.new_ids.contains(id) || id == row_id) by {
                    assert(d.new_ids[doc.new_ids.len() as int] == row_id);
                    if doc.new_ids.contains(id) {
                        let i = choose|i: int| 0 <= i < doc.new_ids.len() && doc.new_ids[i] == id;
                        assert(d.new_ids[i] == id);
                    }
                }
            },
            StoreCall::SetPrev { row_id, .. } => {
                assert(row_settled(doc, row_id));
            },
            StoreCall::SetNext { row_id, .. } => {
                assert(row_settled(doc, row_id));
            },
            StoreCall::SetCoord { row_id, .. } => {
                assert(row_settled(doc, row_id));
            },
            _ => {},
        }
    }
}

proof fn lemma_calls_settled<E>(start: Doc<E>, calls: Seq<StoreCall>)
    requires
        settled(start),
        start.calls(calls).1 is Ok,
    ensures
        settled(start.calls(calls).0),
        start.calls(calls).0.base == start.base,
    decreases calls.len(),
{
    if calls.len() > 0 {
        lemma_calls_settled(start, calls.drop_last());
        lemma_call_settled(start.calls(calls.drop_last()).0, calls.last());
    }
}

// ---------- what is written ----------

/// The change of a row that was there before the edit.
pub open spec fn net_change<E>(doc: Doc<E>, id: i64) -> Option<PieceRowUpdate> {
    row_change((doc.base)(id)->Ok_0, doc.at(id)->Ok_0)
}

/// A row that was there before the edit.
pub open spec fn was_there<E>(doc: Doc<E>, id: i64) -> bool {
    (doc.base)(id) is Ok && !doc.new_ids.contains(id)
}

/// The updates are the net changes of the rows that were there, each once, in the
/// order of their ids: a row that is as it was has none, and of a row that has
/// changed, only the fields that have.
pub open spec fn only_net_changes<E>(doc: Doc<E>, updates: Seq<PieceRowUpdate>) -> bool {
    &&& forall|k: int|
        0 <= k < updates.len() ==> {
            let u = #[trigger] updates[k];
            was_there(doc, u.id) && net_change(doc, u.id) == Some(u)
        }
    &&& forall|id: i64|
        id > 0 && #[trigger] was_there(doc, id) && net_change(doc, id) is Some ==> updates.contains(
            net_change(doc, id)->Some_0,
        )
    &&& forall|k: int, l: int|
        0 <= k < l < updates.len() ==> (#[trigger] updates[k]).id < (#[trigger] updates[l]).id
}

/// The changes among the rows with ids below `n`.
proof fn lemma_changes_below<E>(doc: Doc<E>, n: int)
    requires
        settled(doc),
        n <= i64::MAX + 1,
    ensures
        ({
            let wanted = |id: i64| doc.loaded.contains(id) && !doc.new_ids.contains(id);
            let pair = |id: i64| ((doc.base)(id)->Ok_0, doc.at(id)->Ok_0);
            let updates = row_changes(ids_below(wanted, n).map_values(pair));
            &&& forall|k: int|
                0 <= k < updates.len() ==> {
                    let u = #[trigger] updates[k];
                    was_there(doc, u.id) && net_change(doc, u.id) == Some(u) && 0 < u.id < n
                }
            &&& forall|id: i64|
                0 < id < n && #[trigger] was_there(doc, id) && net_change(doc, id) is Some
                    ==> updates.contains(net_change(doc, id)->Some_0)
            &&& forall|k: int, l: int|
                0 <= k < l < updates.len() ==> (#[trigger] updates[k]).id < (#[trigger] updates[l]).id
        }),
    decreases n,
{
    let wanted = |id: i64| doc.loaded.contains(id) && !doc.new_ids.contains(id);
    let pair = |id: i64| ((doc.base)(id)->Ok_0, doc.at(id)->Ok_0);
    if n > 1 {
        lemma_changes_below(doc, n - 1);
        let last = (n - 1) as i64;
        let below = ids_below(wanted, n - 1);
        let before = row_changes(below.map_values(pair));
        let updates = row_changes(ids_below(wanted, n).map_values(pair));
        assert(row_settled(doc, last));
        assert(below.push(last).map_values(pair).drop_last() =~= below.map_values(pair));
        if wanted(last) {
            assert(updates == match net_change(doc, last) {
                Some(u) => before.push(u),
                None => before,
            });
        } else {
            assert(updates == before);
        }
        assert forall|id: i64|
            0 < id < n && #[trigger] was_there(doc, id) && net_change(doc, id) is Some implies updates.contains(
            net_change(doc, id)->Some_0,
        ) by {
            let u = net_change(doc, id)->Some_0;
            if id == last {
                assert(wanted(last));
                assert(updates.last() == u);
            } else {
                let k = choose|k: int| 0 <= k < before.len() && before[k] == u;
                assert(updates[k] == u);
            }
        }
    } else {
        assert(ids_below(wanted, n).map_values(pair) =~= Seq::empty());
    }
}

pub proof fn lemma_net_changes<E>(doc: Doc<E>)
    requires
        settled(doc),
    ensures
        only_net_changes(doc, doc.piece_updates()),
{
    lemma_changes_below(doc, i64::MAX + 1);
    let wanted = |id: i64| doc.loaded.contains(id) && !doc.new_ids.contains(id);
    assert(doc.existing_ids() == ids_where(wanted));
    assert forall|id: i64|
        id > 0 && #[trigger] was_there(doc, id) && net_change(doc, id) is Some implies doc.piece_updates().contains(
        net_change(doc, id)->Some_0,
    ) by {
        assert(0 < id < i64::MAX + 1);
    }
}

/// Whatever calls are made on a document, as long as they succeed: the updates of
/// its output are the net changes of the rows that were there. A row that was set
/// to another value and back again has no update.
pub proof fn law_only_net_changes<E>(start: Doc<E>, calls: Seq<StoreCall>)
    requires
        is_unedited(start),
        start.ids_match(),
        start.calls(calls).1 is Ok,
    ensures
        start.calls(calls).0.base == start.row,
        only_net_changes(start.calls(calls).0, start.calls(calls).0.piece_updates()),
{
    assert forall|id: i64| #[trigger] row_settled(start, id) by {
        assert(start.at(id) is Ok ==> start.at(id)->Ok_0.id == id);
    }
    assert forall|id: i64| (#[trigger] (start.base)(id)) is Ok implies (start.base)(id)->Ok_0.id == id by {
        assert(start.at(id) == (start.base)(id));
    }
    lemma_calls_settled(start, calls);
    lemma_net_changes(start.calls(calls).0);
}

/// The same of a store over the tree: of the calls on it, its output holds the
/// net changes of the rows in the tree, and the endpoints that have moved.
pub proof fn law_store_writes_net_changes(
    answers: Answers,
    list_number: i64,
    head_id: i64,
    tail_id: i64,
    next_piece_id: i64,
    calls: Seq<StoreCall>,
    rest: OverlayRest,
)
    requires
        rest.pre_head_id == head_id,
        rest.pre_tail_id == tail_id,
        edit_doc(answers, list_number, head_id, tail_id, next_piece_id).calls(calls).1 is Ok,
    ensures
        ({
            let start = edit_doc(answers, list_number, head_id, tail_id, next_piece_id);
            let end = start.calls(calls).0;
            let output = edit_output(
                end,
                rest.pre_head_id,
                rest.pre_tail_id,
                rest.buffers,
                rest.next_buffer_id,
                end.found_coords(),
            );
            &&& end.base == start.row
            &&& only_net_changes(end, output.piece_updates)
            &&& output.head_update == if_moved(head_id, end.head_id())
            &&& output.tail_update == if_moved(tail_id, end.tail_id())
        }),
{
    let start = edit_doc(answers, list_number, head_id, tail_id, next_piece_id);
    assert forall|id: i64| (#[trigger] start.at(id)) is Ok implies start.at(id)->Ok_0.id == id by {}
    law_only_net_changes(start, calls);
}

} // verus!
