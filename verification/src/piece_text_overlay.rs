//! Edits over authenticated reads.
//!
//! Rows are read from the tree one at a time, as an edit comes to them. What the
//! edit changes is staged, and later operations of the same edit see it.

use std::collections::{BTreeMap, HashSet};

use vstd::prelude::*;

use crate::changelog::ChangelogError;
use crate::faults::{EditFault, EndpointRole};
use crate::piece_text::{
    AddressView, BufferCoord, InsertedBufferManifest, PieceCoord, PieceTextAddress,
    PieceTextEditItemManifest, MAX_BUFFER_LEN_BYTES,
};
use crate::piece_text_edit::{
    apply_delete_to_store, apply_insert_to_store, delete_text, insert_piece, PieceStore,
};
use crate::piece_text_planner::{
    buffer_inserts_view, lookups_view, BufferInsertView, BufferRowInsert, ClampWalk, IndexLookup,
    PieceRow, PlannerOutput, PlannerTrace,
};
use crate::piece_text_resolution::{
    holds_lookup, Doc, EditError, ResolveEndpoint, ResolveSource,
};
use crate::piece_text_resolver::{
    aligned_row, buffer_index_read, buffer_rows, read_aligned_piece_coords_row,
    read_candidate_row_ids, row_reads, tree_costs,
};
use crate::piece_text_staging::{
    edit_output, found, ids_where, lemma_ids_below, staged_coords, staged_inserts, staged_pairs,
    staged_updates, StagedRow,
};
use crate::storage::{Answers, OpReader, ReadOpView};

verus! {

/// A row of a document, as the tree has it.
pub open spec fn base_row(answers: Answers, list_number: i64, row_id: i64) -> Result<
    PieceRow,
    ChangelogError,
> {
    match aligned_row(answers, row_id) {
        Err(e) => Err(e),
        Ok(row) => if row.list_number != list_number {
            Err(
                ChangelogError::Overlay(
                    EditFault::OtherList { row_id, found_list: row.list_number, list_number },
                ),
            )
        } else {
            Ok(row)
        },
    }
}

/// A document before an edit.
pub open spec fn edit_doc(
    answers: Answers,
    list_number: i64,
    head_id: i64,
    tail_id: i64,
    next_piece_id: i64,
) -> Doc<ChangelogError> {
    Doc {
        list_number,
        row: |id: i64| base_row(answers, list_number, id),
        base: |id: i64| base_row(answers, list_number, id),
        candidates: |b: i64| buffer_rows(answers, b),
        head: Ok(head_id),
        tail: Ok(tail_id),
        next_piece_id,
        new_ids: Seq::empty(),
        loaded: Set::empty(),
        lookups: Seq::empty(),
        clamps: Seq::empty(),
        costs: tree_costs(answers),
        log: Seq::empty(),
    }
}

/// The error that a failed step of an edit is reported as.
pub open spec fn overlay_error(e: EditError<ChangelogError>) -> ChangelogError {
    match e {
        EditError::Store(e) => e,
        EditError::Fault(f) => ChangelogError::Overlay(f),
    }
}

pub open spec fn overlay_result<T>(r: Result<T, EditError<ChangelogError>>) -> Result<
    T,
    ChangelogError,
> {
    match r {
        Ok(t) => Ok(t),
        Err(e) => Err(overlay_error(e)),
    }
}

fn to_overlay_result<T>(r: Result<T, EditError<ChangelogError>>) -> (o: Result<T, ChangelogError>)
    ensures
        o == overlay_result(r),
{
    match r {
        Ok(t) => Ok(t),
        Err(EditError::Store(e)) => Err(e),
        Err(EditError::Fault(f)) => Err(ChangelogError::Overlay(f)),
    }
}

/// What is wrong with the state that an edit is to start from, if anything.
pub open spec fn start_fault(
    list_number: i64,
    head_id: i64,
    tail_id: i64,
    next_piece_id: i64,
    next_buffer_id: i64,
) -> Option<EditFault> {
    if list_number <= 0 {
        Some(EditFault::ListNumberNotPositive { list_number })
    } else if next_piece_id < 1 {
        Some(EditFault::PieceNextIdTooSmall { next_id: next_piece_id })
    } else if next_buffer_id < 1 {
        Some(EditFault::BuffersNextIdTooSmall { next_id: next_buffer_id })
    } else if head_id < 0 || tail_id < 0 {
        Some(EditFault::NegativeEndpoint { head_id, tail_id })
    } else if (head_id == 0) != (tail_id == 0) {
        Some(EditFault::EndpointsDisagree { head_id, tail_id })
    } else if head_id >= next_piece_id || tail_id >= next_piece_id {
        Some(EditFault::EndpointPastNext { head_id, tail_id, next_id: next_piece_id })
    } else {
        None
    }
}

/// What an edit carries besides the document.
pub struct OverlayRest {
    pub answers: Answers,
    pub owner: AddressView,
    pub author_id: i64,
    pub pre_head_id: i64,
    pub pre_tail_id: i64,
    pub next_buffer_id: i64,
    pub buffers: Seq<BufferInsertView>,
}

/// A document under edit. Reads go to the tree once each; writes are staged.
pub struct OverlayPieceStore<'a, R: OpReader> {
    reader: &'a mut R,
    /// The reads that were made before the edit.
    before: Ghost<Seq<ReadOpView>>,
    list_number: i64,
    author_id: i64,
    address: PieceTextAddress,
    head_id: i64,
    tail_id: i64,
    pre_head_id: i64,
    pre_tail_id: i64,
    next_piece_id: i64,
    next_buffer_id: i64,
    rows: BTreeMap<i64, StagedRow>,
    new_piece_ids: Vec<i64>,
    new_rows_by_buffer: BTreeMap<i64, Vec<i64>>,
    candidate_cache: BTreeMap<i64, Vec<i64>>,
    buffer_inserts: Vec<BufferRowInsert>,
    trace: PlannerTrace,
}

impl<'a, R: OpReader> OverlayPieceStore<'a, R> {
    /// The rows added so far that lie in a buffer.
    spec fn staged_in(&self, buffer_id: i64) -> Seq<i64> {
        if self.new_rows_by_buffer@.contains_key(buffer_id) {
            self.new_rows_by_buffer@[buffer_id]@
        } else {
            Seq::empty()
        }
    }

    spec fn base(&self, row_id: i64) -> Result<PieceRow, ChangelogError> {
        base_row(self.reader.answers(), self.list_number, row_id)
    }

    spec fn row_ok(&self, id: i64) -> bool {
        let row = self.rows@[id];
        &&& id > 0
        &&& row.current.id == id
        &&& self.new_piece_ids@.contains(id) == (row.original is None)
        &&& row.original is Some ==> self.base(id) == Ok::<PieceRow, ChangelogError>(
            row.original->Some_0,
        )
    }
}

proof fn lemma_holds_lookup(lookups: Seq<(i64, Seq<i64>)>, buffer_id: i64, ids: Seq<i64>)
    ensures
        forall|b: i64| #[trigger]
            holds_lookup(lookups.push((buffer_id, ids)), b) == (holds_lookup(lookups, b) || b
                == buffer_id),
{
    let n = lookups.len() as int;
    let after = lookups.push((buffer_id, ids));
    assert forall|b: i64| #[trigger] holds_lookup(after, b) == (holds_lookup(lookups, b) || b
        == buffer_id) by {
        if holds_lookup(lookups, b) {
            let i = choose|i: int| 0 <= i < n && (#[trigger] lookups[i]).0 == b;
            assert(after[i].0 == b);
        }
        assert(after[n].0 == buffer_id);
        if holds_lookup(after, b) && b != buffer_id {
            let i = choose|i: int| 0 <= i < n + 1 && (#[trigger] after[i]).0 == b;
            assert(lookups[i].0 == b);
        }
    }
}

impl<'a, R: OpReader> ResolveSource for OverlayPieceStore<'a, R> {
    type Error = ChangelogError;

    /// What the edit carries, and the reads that were made before it.
    type Rest = (OverlayRest, Seq<ReadOpView>);

    closed spec fn rest(&self) -> (OverlayRest, Seq<ReadOpView>) {
        (
            OverlayRest {
                answers: self.reader.answers(),
                owner: self.address@,
                author_id: self.author_id,
                pre_head_id: self.pre_head_id,
                pre_tail_id: self.pre_tail_id,
                next_buffer_id: self.next_buffer_id,
                buffers: buffer_inserts_view(self.buffer_inserts@),
            },
            self.before@,
        )
    }

    type Tree = R;

    closed spec fn tree(&self) -> &mut R {
        self.reader
    }

    closed spec fn doc(&self) -> Doc<ChangelogError> {
        let answers = self.reader.answers();
        let list_number = self.list_number;
        let rows = self.rows@;
        Doc {
            list_number,
            row: |id: i64|
                if rows.contains_key(id) {
                    Ok(rows[id].current)
                } else {
                    base_row(answers, list_number, id)
                },
            base: |id: i64| base_row(answers, list_number, id),
            candidates: |b: i64|
                match buffer_rows(answers, b) {
                    Ok(ids) => Ok(ids + self.staged_in(b)),
                    Err(e) => Err(e),
                },
            head: Ok(self.head_id),
            tail: Ok(self.tail_id),
            next_piece_id: self.next_piece_id,
            new_ids: self.new_piece_ids@,
            loaded: rows.dom(),
            lookups: lookups_view(self.trace.index_lookups@),
            clamps: self.trace.clamp_walks@,
            costs: tree_costs(answers),
            log: self.reader.log().skip(self.before@.len() as int),
        }
    }

    closed spec fn wf(&self) -> bool {
        &&& self.before@.is_prefix_of(self.reader.log())
        &&& forall|b: i64| #[trigger]
            self.candidate_cache@.contains_key(b) == holds_lookup(
                lookups_view(self.trace.index_lookups@),
                b,
            )
        &&& forall|id: i64| #[trigger] self.rows@.contains_key(id) ==> self.row_ok(id)
        &&& forall|i: int|
            0 <= i < self.new_piece_ids.len() ==> self.rows@.contains_key(
                #[trigger] self.new_piece_ids@[i],
            )
        &&& forall|b: i64| #[trigger]
            self.candidate_cache@.contains_key(b) ==> buffer_rows(self.reader.answers(), b) == Ok::<
                Seq<i64>,
                ChangelogError,
            >(self.candidate_cache@[b]@)
    }

    proof fn lemma_ids_match(&self) {
    }

    fn list_number(&self) -> (n: i64) {
        self.list_number
    }

    fn candidate_row_ids(&mut self, buffer_id: i64) -> (r: Result<Vec<i64>, ChangelogError>) {
        OverlayPieceStore::candidate_row_ids(self, buffer_id)
    }

    fn read_row(&mut self, row_id: i64) -> (r: Result<PieceRow, ChangelogError>) {
        self.read_piece_row(row_id)
    }

    fn read_endpoint(&mut self, endpoint: ResolveEndpoint) -> (r: Result<i64, ChangelogError>) {
        assert(self.doc().log =~= self.doc().after_endpoint(endpoint).log);
        Ok(
            match endpoint {
                ResolveEndpoint::Head => self.head_id,
                ResolveEndpoint::Tail => self.tail_id,
            },
        )
    }
}

fn to_edit_result<T>(r: Result<T, ChangelogError>) -> (o: Result<T, EditError<ChangelogError>>)
    ensures
        o == (match r {
            Ok(t) => Ok::<T, EditError<ChangelogError>>(t),
            Err(e) => Err(EditError::Store(e)),
        }),
{
    match r {
        Ok(t) => Ok(t),
        Err(e) => Err(EditError::Store(e)),
    }
}

impl<'a, R: OpReader> PieceStore for OverlayPieceStore<'a, R> {
    proof fn lemma_endpoints_known(&self) {
    }

    fn store_head(&self) -> (id: i64) {
        self.read_head()
    }

    fn store_tail(&self) -> (id: i64) {
        self.read_tail()
    }

    fn store_set_head(&mut self, head_id: i64) {
        self.set_head(head_id);
    }

    fn store_set_tail(&mut self, tail_id: i64) {
        self.set_tail(tail_id);
    }

    fn store_set_prev(&mut self, row_id: i64, prev_id: i64) -> (r: Result<(), EditError<ChangelogError>>) {
        to_edit_result(self.set_prev(row_id, prev_id))
    }

    fn store_set_next(&mut self, row_id: i64, next_id: i64) -> (r: Result<(), EditError<ChangelogError>>) {
        to_edit_result(self.set_next(row_id, next_id))
    }

    fn store_set_coord(&mut self, row_id: i64, coord: PieceCoord) -> (r: Result<
        (),
        EditError<ChangelogError>,
    >) {
        to_edit_result(self.set_coord(row_id, coord))
    }

    fn store_insert_row(&mut self, row_id: i64, prev_id: i64, next_id: i64, coord: PieceCoord) -> (r: Result<
        (),
        EditError<ChangelogError>,
    >) {
        self.stage_row(row_id, prev_id, next_id, coord)
    }

    fn store_alloc_piece_id(&mut self) -> (r: Result<i64, EditError<ChangelogError>>) {
        self.take_piece_id()
    }

    fn piece_id_ceiling(&self) -> (cap: i64) {
        self.next_piece_id
    }

    fn record_clamp(&mut self, walk: ClampWalk) {
        self.trace.clamp_walks.push(walk);
        assert(self.doc().candidates =~= old(self).doc().candidates);
    }
}

impl<'a, R: OpReader> OverlayPieceStore<'a, R> {
    /// The reads that the reader has made.
    pub closed spec fn log(&self) -> Seq<ReadOpView> {
        self.reader.log()
    }

    /// What was read for the document comes after what was read before.
    pub proof fn lemma_log(&self)
        requires
            self.wf(),
        ensures
            self.log() == self.rest().1 + self.doc().log,
    {
        assert(self.log() =~= self.rest().1 + self.doc().log);
    }

    /// Starts an edit from the state given.
    pub fn new(
        reader: &'a mut R,
        address: PieceTextAddress,
        list_number: i64,
        author_id: i64,
        head_id: i64,
        tail_id: i64,
        pre_piece_next_id: i64,
        pre_buffers_next_id: i64,
    ) -> (r: Result<Self, ChangelogError>)
        ensures
            match start_fault(list_number, head_id, tail_id, pre_piece_next_id, pre_buffers_next_id) {
                Some(f) => r == Err::<Self, ChangelogError>(ChangelogError::Overlay(f)) && *final(reader)
                    == *old(reader),
                None => r matches Ok(store) && {
                    &&& store.wf()
                    &&& store.log() == old(reader).log()
                    &&& *final(store.tree()) == *final(reader)
                    &&& store.doc() == edit_doc(
                        old(reader).answers(),
                        list_number,
                        head_id,
                        tail_id,
                        pre_piece_next_id,
                    )
                    &&& store.doc().ranges_fit()
                    &&& store.rest() == (
                        (OverlayRest {
                            answers: old(reader).answers(),
                            owner: address@,
                            author_id,
                            pre_head_id: head_id,
                            pre_tail_id: tail_id,
                            next_buffer_id: pre_buffers_next_id,
                            buffers: Seq::empty(),
                        }),
                        old(reader).log(),
                    )
                },
            },
    {
        if list_number <= 0 {
            return Err(ChangelogError::Overlay(EditFault::ListNumberNotPositive { list_number }));
        }
        if pre_piece_next_id < 1 {
            return Err(
                ChangelogError::Overlay(EditFault::PieceNextIdTooSmall { next_id: pre_piece_next_id }),
            );
        }
        if pre_buffers_next_id < 1 {
            return Err(
                ChangelogError::Overlay(
                    EditFault::BuffersNextIdTooSmall { next_id: pre_buffers_next_id },
                ),
            );
        }
        if head_id < 0 || tail_id < 0 {
            return Err(ChangelogError::Overlay(EditFault::NegativeEndpoint { head_id, tail_id }));
        }
        if (head_id == 0) != (tail_id == 0) {
            return Err(ChangelogError::Overlay(EditFault::EndpointsDisagree { head_id, tail_id }));
        }
        if head_id >= pre_piece_next_id || tail_id >= pre_piece_next_id {
            return Err(
                ChangelogError::Overlay(
                    EditFault::EndpointPastNext { head_id, tail_id, next_id: pre_piece_next_id },
                ),
            );
        }
        let ghost answers = reader.answers();
        let ghost before = reader.log();
        let store = OverlayPieceStore {
            reader,
            before: Ghost(before),
            list_number,
            author_id,
            address,
            head_id,
            tail_id,
            pre_head_id: head_id,
            pre_tail_id: tail_id,
            next_piece_id: pre_piece_next_id,
            next_buffer_id: pre_buffers_next_id,
            rows: BTreeMap::new(),
            new_piece_ids: Vec::new(),
            new_rows_by_buffer: BTreeMap::new(),
            candidate_cache: BTreeMap::new(),
            buffer_inserts: Vec::new(),
            trace: PlannerTrace::default(),
        };
        proof {
            let doc = edit_doc(answers, list_number, head_id, tail_id, pre_piece_next_id);
            assert(store.doc().row =~= doc.row);
            assert forall|b: i64| #[trigger] (store.doc().candidates)(b) == (doc.candidates)(b) by {
                if let Ok(ids) = buffer_rows(answers, b) {
                    assert(ids + store.staged_in(b) =~= ids);
                }
            }
            assert(store.doc().candidates =~= doc.candidates);
            assert(store.doc().loaded =~= doc.loaded);
            assert(store.rest().0.buffers =~= Seq::empty());
            assert(store.doc().log =~= Seq::empty());
        }
        Ok(store)
    }

    /// Makes sure that a row is at hand.
    fn load_row(&mut self, row_id: i64) -> (r: Result<PieceRow, ChangelogError>)
        requires
            old(self).wf(),
        ensures
            final(self).wf(),
            final(self).log() == old(self).log() + old(self).doc().row_cost(row_id),
            final(self).rest() == old(self).rest(),
            *final(final(self).tree()) == *final(old(self).tree()),
            final(self).doc() == old(self).doc().after_read(row_id),
            r == old(self).doc().at(row_id),
            r is Ok ==> final(self).rows@.contains_key(row_id) && final(self).rows@[row_id].current
                == r->Ok_0,
    {
        broadcast use vstd::std_specs::btree::group_btree_axioms;

        if let Some(row) = self.rows.get(&row_id) {
            assert(self.doc().loaded.insert(row_id) =~= self.doc().loaded);
            assert(self.doc().log =~= self.doc().after_read(row_id).log);
            assert(self.log() =~= old(self).log() + old(self).doc().row_cost(row_id));
            return Ok(row.current);
        }
        let ghost cost = row_reads(self.reader.answers(), row_id);
        let read = read_aligned_piece_coords_row(self.reader, row_id);
        proof {
            assert(self.doc().log =~= old(self).doc().log + cost);
            assert(self.log() == old(self).log() + old(self).doc().row_cost(row_id));
            assert(self.doc().candidates =~= old(self).doc().candidates);
        }
        let row = read?;
        if row.list_number != self.list_number {
            return Err(
                ChangelogError::Overlay(
                    EditFault::OtherList {
                        row_id,
                        found_list: row.list_number,
                        list_number: self.list_number,
                    },
                ),
            );
        }
        self.rows.insert(row_id, StagedRow { current: row, original: Some(row) });
        proof {
            assert(self.doc().row =~= old(self).doc().row);
            assert(self.doc().candidates =~= old(self).doc().candidates);
            assert(self.doc().loaded =~= old(self).doc().loaded.insert(row_id));
        }
        Ok(row)
    }

    /// A row as the edit has left it so far.
    pub fn read_piece_row(&mut self, row_id: i64) -> (r: Result<PieceRow, ChangelogError>)
        requires
            old(self).wf(),
        ensures
            final(self).wf(),
            final(self).log() == old(self).log() + old(self).doc().row_cost(row_id),
            final(self).rest() == old(self).rest(),
            *final(final(self).tree()) == *final(old(self).tree()),
            final(self).doc() == old(self).doc().after_read(row_id),
            r == old(self).doc().at(row_id),
    {
        self.load_row(row_id)
    }

    /// The rows of a buffer: those of the tree, then those that the edit added.
    pub fn candidate_row_ids(&mut self, buffer_id: i64) -> (r: Result<Vec<i64>, ChangelogError>)
        requires
            old(self).wf(),
        ensures
            final(self).wf(),
            final(self).log() == old(self).log() + old(self).doc().buffer_cost(buffer_id),
            old(self).doc().looked_up(buffer_id) ==> final(self).log() == old(self).log(),
            r is Ok ==> final(self).doc().looked_up(buffer_id),
            final(self).rest() == old(self).rest(),
            *final(final(self).tree()) == *final(old(self).tree()),
            final(self).doc() == old(self).doc().after_lookup(buffer_id),
            match (old(self).doc().candidates)(buffer_id) {
                Ok(ids) => r matches Ok(v) && v@ == ids,
                Err(e) => r == Err::<Vec<i64>, ChangelogError>(e),
            },
    {
        broadcast use vstd::std_specs::btree::group_btree_axioms;

        let mut row_ids: Vec<i64> = Vec::new();
        assert(self.candidate_cache@.contains_key(buffer_id) == self.doc().looked_up(buffer_id));
        if let Some(cached) = self.candidate_cache.get(&buffer_id) {
            row_ids.extend_from_slice(cached.as_slice());
        } else {
            let read = read_candidate_row_ids(self.reader, buffer_id);
            proof {
                assert(self.doc().log =~= old(self).doc().log.push(buffer_index_read(buffer_id)));
                assert(self.doc().log =~= old(self).doc().after_lookup(buffer_id).log);
                assert(self.doc().candidates =~= old(self).doc().candidates);
            }
            assert(self.log() =~= old(self).log() + old(self).doc().buffer_cost(buffer_id));
            let pre_state = read?;
            row_ids.extend_from_slice(pre_state.as_slice());
            self.candidate_cache.insert(buffer_id, pre_state);
        }
        if let Some(staged) = self.new_rows_by_buffer.get(&buffer_id) {
            row_ids.extend_from_slice(staged.as_slice());
        }
        let mut returned_row_ids: Vec<i64> = Vec::new();
        returned_row_ids.extend_from_slice(row_ids.as_slice());
        assert(returned_row_ids@ =~= row_ids@);
        assert(row_ids@ =~= (old(self).doc().candidates)(buffer_id)->Ok_0);
        self.trace.index_lookups.push(IndexLookup { buffer_id, returned_row_ids });
        proof {
            assert(self.doc().log =~= old(self).doc().after_lookup(buffer_id).log);
            assert(self.log() =~= old(self).log() + old(self).doc().buffer_cost(buffer_id));
            assert(self.doc().candidates =~= old(self).doc().candidates);
            assert(self.doc().row =~= old(self).doc().row);
            assert(self.doc().lookups =~= old(self).doc().lookups.push((buffer_id, row_ids@)));
            lemma_holds_lookup(old(self).doc().lookups, buffer_id, row_ids@);
        }
        Ok(row_ids)
    }

    /// The first row, 0 if there is none.
    pub fn read_head(&self) -> (id: i64)
        ensures
            self.doc().head == Ok::<i64, ChangelogError>(id),
    {
        self.head_id
    }

    /// The last row, 0 if there is none.
    pub fn read_tail(&self) -> (id: i64)
        ensures
            self.doc().tail == Ok::<i64, ChangelogError>(id),
    {
        self.tail_id
    }

    pub fn set_head(&mut self, head_id: i64)
        requires
            old(self).wf(),
        ensures
            final(self).wf(),
            final(self).log() == old(self).log(),
            final(self).rest() == old(self).rest(),
            *final(final(self).tree()) == *final(old(self).tree()),
            final(self).doc() == old(self).doc().set_head(head_id),
    {
        self.head_id = head_id;
        assert(self.doc().candidates =~= old(self).doc().candidates);
    }

    pub fn set_tail(&mut self, tail_id: i64)
        requires
            old(self).wf(),
        ensures
            final(self).wf(),
            final(self).log() == old(self).log(),
            final(self).rest() == old(self).rest(),
            *final(final(self).tree()) == *final(old(self).tree()),
            final(self).doc() == old(self).doc().set_tail(tail_id),
    {
        self.tail_id = tail_id;
        assert(self.doc().candidates =~= old(self).doc().candidates);
    }

    /// Stages a new value of a row that was there.
    fn put_row(&mut self, row: PieceRow)
        requires
            old(self).wf(),
            old(self).rows@.contains_key(row.id),
        ensures
            final(self).wf(),
            final(self).log() == old(self).log(),
            final(self).rest() == old(self).rest(),
            *final(final(self).tree()) == *final(old(self).tree()),
            final(self).doc() == old(self).doc().with_row(row),
    {
        broadcast use vstd::std_specs::btree::group_btree_axioms;

        let original = match self.rows.get(&row.id) {
            Some(staged) => staged.original,
            None => None,
        };
        self.rows.insert(row.id, StagedRow { current: row, original });
        proof {
            assert(self.doc().row =~= old(self).doc().with_row(row).row);
            assert(self.doc().candidates =~= old(self).doc().candidates);
            assert(self.doc().loaded =~= old(self).doc().loaded);
        }
    }

    pub fn set_prev(&mut self, row_id: i64, prev_id: i64) -> (r: Result<(), ChangelogError>)
        requires
            old(self).wf(),
        ensures
            final(self).wf(),
            final(self).log() == old(self).log() + old(self).doc().row_cost(row_id),
            final(self).rest() == old(self).rest(),
            *final(final(self).tree()) == *final(old(self).tree()),
            final(self).doc() == old(self).doc().set_prev(row_id, prev_id).0,
            r == overlay_result(old(self).doc().set_prev(row_id, prev_id).1),
    {
        proof {
            self.lemma_ids_match();
        }
        let row = self.load_row(row_id)?;
        self.put_row(PieceRow { prev_id, ..row });
        Ok(())
    }

    pub fn set_next(&mut self, row_id: i64, next_id: i64) -> (r: Result<(), ChangelogError>)
        requires
            old(self).wf(),
        ensures
            final(self).wf(),
            final(self).log() == old(self).log() + old(self).doc().row_cost(row_id),
            final(self).rest() == old(self).rest(),
            *final(final(self).tree()) == *final(old(self).tree()),
            final(self).doc() == old(self).doc().set_next(row_id, next_id).0,
            r == overlay_result(old(self).doc().set_next(row_id, next_id).1),
    {
        proof {
            self.lemma_ids_match();
        }
        let row = self.load_row(row_id)?;
        self.put_row(PieceRow { next_id, ..row });
        Ok(())
    }

    pub fn set_coord(&mut self, row_id: i64, coord: PieceCoord) -> (r: Result<(), ChangelogError>)
        requires
            old(self).wf(),
        ensures
            final(self).wf(),
            final(self).log() == old(self).log() + old(self).doc().row_cost(row_id),
            final(self).rest() == old(self).rest(),
            *final(final(self).tree()) == *final(old(self).tree()),
            final(self).doc() == old(self).doc().set_coord(row_id, coord).0,
            r == overlay_result(old(self).doc().set_coord(row_id, coord).1),
    {
        proof {
            self.lemma_ids_match();
        }
        let row = self.load_row(row_id)?;
        self.put_row(PieceRow { coord, ..row });
        Ok(())
    }

    /// Stages a row that the document did not have.
    pub fn insert_new_row(&mut self, id: i64, prev_id: i64, next_id: i64, coord: PieceCoord) -> (r: Result<
        (),
        ChangelogError,
    >)
        requires
            old(self).wf(),
        ensures
            final(self).wf(),
            final(self).log() == old(self).log(),
            final(self).rest() == old(self).rest(),
            *final(final(self).tree()) == *final(old(self).tree()),
            final(self).doc() == old(self).doc().insert_new_row(id, prev_id, next_id, coord).0,
            r == overlay_result(old(self).doc().insert_new_row(id, prev_id, next_id, coord).1),
    {
        to_overlay_result(self.stage_row(id, prev_id, next_id, coord))
    }

    fn stage_row(&mut self, id: i64, prev_id: i64, next_id: i64, coord: PieceCoord) -> (r: Result<
        (),
        EditError<ChangelogError>,
    >)
        requires
            old(self).wf(),
        ensures
            final(self).wf(),
            final(self).log() == old(self).log(),
            final(self).rest() == old(self).rest(),
            *final(final(self).tree()) == *final(old(self).tree()),
            (final(self).doc(), r) == old(self).doc().insert_new_row(id, prev_id, next_id, coord),
    {
        broadcast use vstd::std_specs::btree::group_btree_axioms;

        if id <= 0 {
            return Err(EditError::Fault(EditFault::RowIdNotPositive { row_id: id }));
        }
        if self.rows.contains_key(&id) {
            return Err(EditError::Fault(EditFault::DoubleAllocated { row_id: id }));
        }
        let row = PieceRow { id, list_number: self.list_number, prev_id, next_id, coord };
        let mut in_buffer: Vec<i64> = Vec::new();
        if let Some(staged) = self.new_rows_by_buffer.get(&coord.buffer_id) {
            in_buffer.extend_from_slice(staged.as_slice());
        }
        in_buffer.push(id);
        self.new_rows_by_buffer.insert(coord.buffer_id, in_buffer);
        self.new_piece_ids.push(id);
        self.rows.insert(id, StagedRow { current: row, original: None });
        proof {
            let before = old(self).doc();
            let after = before.insert_new_row(id, prev_id, next_id, coord).0;
            assert(self.doc().row =~= after.row);
            assert(self.doc().loaded =~= after.loaded);
            assert forall|b: i64| #[trigger] (self.doc().candidates)(b) == (after.candidates)(b) by {
                if let Ok(ids) = buffer_rows(self.reader.answers(), b) {
                    if b == coord.buffer_id {
                        assert(self.staged_in(b) =~= old(self).staged_in(b).push(id));
                        assert(ids + self.staged_in(b) =~= (ids + old(self).staged_in(b)).push(id));
                    } else {
                        assert(self.staged_in(b) == old(self).staged_in(b));
                    }
                }
            }
            assert(self.doc().candidates =~= after.candidates);
            let ids = old(self).new_piece_ids@;
            assert forall|x: i64| x != id implies #[trigger] ids.push(id).contains(x) == ids.contains(
                x,
            ) by {
                if ids.contains(x) {
                    assert(ids.push(id)[ids.index_of(x)] == x);
                }
            }
            assert(ids.push(id)[ids.len() as int] == id);
        }
        Ok(())
    }

    /// Takes the next free row id.
    pub fn alloc_piece_id(&mut self) -> (r: Result<i64, ChangelogError>)
        requires
            old(self).wf(),
        ensures
            final(self).wf(),
            final(self).log() == old(self).log(),
            final(self).rest() == old(self).rest(),
            *final(final(self).tree()) == *final(old(self).tree()),
            final(self).doc() == old(self).doc().alloc_piece_id().0,
            r == overlay_result(old(self).doc().alloc_piece_id().1),
    {
        to_overlay_result(self.take_piece_id())
    }

    fn take_piece_id(&mut self) -> (r: Result<i64, EditError<ChangelogError>>)
        requires
            old(self).wf(),
        ensures
            final(self).wf(),
            final(self).log() == old(self).log(),
            final(self).rest() == old(self).rest(),
            *final(final(self).tree()) == *final(old(self).tree()),
            (final(self).doc(), r) == old(self).doc().alloc_piece_id(),
    {
        let id: i64 = self.next_piece_id;
        if id == i64::MAX {
            return Err(EditError::Fault(EditFault::PieceIdOverflow));
        }
        self.next_piece_id = id + 1;
        assert(self.doc().candidates =~= old(self).doc().candidates);
        Ok(id)
    }

    /// Takes the next free buffer id.
    pub fn alloc_buffer_id(&mut self) -> (r: Result<i64, ChangelogError>)
        requires
            old(self).wf(),
        ensures
            final(self).wf(),
            final(self).log() == old(self).log(),
            *final(final(self).tree()) == *final(old(self).tree()),
            final(self).doc() == old(self).doc(),
            if old(self).rest().0.next_buffer_id == i64::MAX {
                &&& final(self).rest() == old(self).rest()
                &&& r == Err::<i64, ChangelogError>(ChangelogError::Overlay(EditFault::BufferIdOverflow))
            } else {
                &&& final(self).rest() == (
                    (OverlayRest {
                        next_buffer_id: (old(self).rest().0.next_buffer_id + 1) as i64,
                        ..old(self).rest().0
                    }),
                    old(self).rest().1,
                )
                &&& r == Ok::<i64, ChangelogError>(old(self).rest().0.next_buffer_id)
            },
    {
        let id: i64 = self.next_buffer_id;
        if id == i64::MAX {
            return Err(ChangelogError::Overlay(EditFault::BufferIdOverflow));
        }
        self.next_buffer_id = id + 1;
        assert(self.doc().candidates =~= old(self).doc().candidates);
        Ok(id)
    }

    /// Stages a buffer. It belongs to the document and to the edit's author.
    pub fn stage_buffer_insert(&mut self, new_id: i64, len_bytes: u32, ciphertext_value_hash: [u8; 32])
        requires
            old(self).wf(),
        ensures
            final(self).wf(),
            final(self).doc() == old(self).doc(),
            final(self).log() == old(self).log(),
            *final(final(self).tree()) == *final(old(self).tree()),
            final(self).rest() == (
                (OverlayRest {
                    buffers: old(self).rest().0.buffers.push(
                        BufferInsertView {
                            new_id,
                            owner: old(self).rest().0.owner,
                            author_id: old(self).rest().0.author_id,
                            len_bytes,
                            ciphertext_value_hash,
                        },
                    ),
                    ..old(self).rest().0
                }),
                old(self).rest().1,
            ),
    {
        self.buffer_inserts.push(
            BufferRowInsert {
                new_id,
                owner_table: self.address.table.clone(),
                owner_row_id: self.address.row_id,
                owner_column: self.address.column.clone(),
                author_id: self.author_id,
                len_bytes,
                ciphertext_value_hash,
            },
        );
        proof {
            assert(self.doc().candidates =~= old(self).doc().candidates);
            assert(self.rest().0.buffers =~= old(self).rest().0.buffers.push(self.buffer_inserts@.last()@));
        }
    }

    /// The writes that the edit amounts to.
    pub fn into_output(self) -> (out: PlannerOutput)
        requires
            self.wf(),
        ensures
            out@ == edit_output(
                self.doc(),
                self.rest().0.pre_head_id,
                self.rest().0.pre_tail_id,
                self.rest().0.buffers,
                self.rest().0.next_buffer_id,
                self.doc().found_coords(),
            ),
            final(self.tree()).answers() == self.rest().0.answers,
            final(self.tree()).log() == self.log(),
    {
        let ghost before = self;
        let authenticated_piece_coords = staged_coords(&self.rows);
        let piece_inserts = staged_inserts(&self.rows, &self.new_piece_ids);
        let piece_updates = staged_updates(&self.rows);
        let out = PlannerOutput {
            head_update: if self.head_id != self.pre_head_id {
                Some(self.head_id)
            } else {
                None
            },
            tail_update: if self.tail_id != self.pre_tail_id {
                Some(self.tail_id)
            } else {
                None
            },
            piece_next_id_post: if self.new_piece_ids.len() > 0 {
                Some(self.next_piece_id)
            } else {
                None
            },
            buffers_next_id_post: if self.buffer_inserts.len() > 0 {
                Some(self.next_buffer_id)
            } else {
                None
            },
            piece_inserts,
            piece_updates,
            buffer_inserts: self.buffer_inserts,
            trace: PlannerTrace {
                authenticated_piece_coords,
                index_lookups: self.trace.index_lookups,
                clamp_walks: self.trace.clamp_walks,
            },
        };
        proof {
            before.lemma_output();
        }
        out
    }

    /// Gives the reader back.
    pub fn release(self)
        ensures
            final(self.tree()).answers() == self.rest().0.answers,
            final(self.tree()).log() == self.log(),
    {
    }

    proof fn lemma_output(&self)
        requires
            self.wf(),
        ensures
            self.doc().found_coords() == ids_where(|id: i64| found(self.rows@, id)).map_values(
                |id: i64| (id, self.rows@[id].original->Some_0.coord),
            ),
            self.doc().piece_updates() == crate::piece_text_staging::row_changes(
                staged_pairs(self.rows@),
            ),
            self.doc().piece_inserts() == self.new_piece_ids@.map_values(
                |id: i64| crate::piece_text_staging::row_insert(self.rows@[id].current),
            ),
    {
        let doc = self.doc();
        let known = |id: i64| doc.loaded.contains(id) && !doc.new_ids.contains(id);
        let staged = |id: i64| found(self.rows@, id);
        assert(known =~= staged);
        lemma_ids_below(staged, i64::MAX + 1);
        let ids = ids_where(staged);
        assert forall|i: int| 0 <= i < ids.len() implies (doc.base)(#[trigger] ids[i]) == Ok::<
            PieceRow,
            ChangelogError,
        >(self.rows@[ids[i]].original->Some_0) && doc.at(ids[i])->Ok_0 == self.rows@[ids[i]].current by {
            assert(staged(ids[i]));
        }
        assert(doc.found_coords() =~= ids.map_values(
            |id: i64| (id, self.rows@[id].original->Some_0.coord),
        ));
        assert(ids.map_values(|id: i64| ((doc.base)(id)->Ok_0, doc.at(id)->Ok_0)) =~= staged_pairs(
            self.rows@,
        ));
        assert(doc.piece_inserts() =~= self.new_piece_ids@.map_values(
            |id: i64| crate::piece_text_staging::row_insert(self.rows@[id].current),
        ));
    }
}

// ---------- edits ----------

/// The state of an edit between two of its operations.
pub struct EditState {
    pub doc: Doc<ChangelogError>,
    pub rest: OverlayRest,
    /// The buffers that the edit has added.
    pub allocated: Set<i64>,
}

/// An operation may not refer to a buffer that the same edit adds.
pub open spec fn same_edit_fault(allocated: Set<i64>, index: int, role: EndpointRole, coord: BufferCoord) -> Option<
    EditFault,
> {
    if coord.buffer_id != 0 && allocated.contains(coord.buffer_id) {
        Some(EditFault::SameEditBuffer { index: index as usize, role, buffer_id: coord.buffer_id })
    } else {
        None
    }
}

pub open spec fn insert_len_fault(len_bytes: u32) -> Option<EditFault> {
    if len_bytes == 0 {
        Some(EditFault::EmptyInsert)
    } else if len_bytes > MAX_BUFFER_LEN_BYTES {
        Some(EditFault::InsertTooLong { len_bytes })
    } else {
        None
    }
}

/// The piece that a new buffer is, whole and live.
pub open spec fn whole_buffer(buffer_id: i64, len_bytes: u32) -> PieceCoord {
    PieceCoord { buffer_id, start_byte: 0, len_bytes, tombstone: false }
}

impl EditState {
    pub open spec fn fail(self, fault: EditFault) -> (EditState, Result<(), ChangelogError>) {
        (self, Err(ChangelogError::Overlay(fault)))
    }

    /// The state with one more buffer.
    pub open spec fn with_buffer(self, inserted: InsertedBufferManifest) -> EditState {
        let new_id = self.rest.next_buffer_id;
        EditState {
            doc: self.doc,
            rest: OverlayRest {
                next_buffer_id: (new_id + 1) as i64,
                buffers: self.rest.buffers.push(
                    BufferInsertView {
                        new_id,
                        owner: self.rest.owner,
                        author_id: self.rest.author_id,
                        len_bytes: inserted.len_bytes,
                        ciphertext_value_hash: inserted.ciphertext_value_hash,
                    },
                ),
                ..self.rest
            },
            allocated: self.allocated.insert(new_id),
        }
    }

    pub open spec fn insert(self, index: int, at: BufferCoord, inserted: InsertedBufferManifest) -> (
        EditState,
        Result<(), ChangelogError>,
    ) {
        match same_edit_fault(self.allocated, index, EndpointRole::Insert, at) {
            Some(f) => self.fail(f),
            None => match insert_len_fault(inserted.len_bytes) {
                Some(f) => self.fail(f),
                None => if self.rest.next_buffer_id == i64::MAX {
                    self.fail(EditFault::BufferIdOverflow)
                } else {
                    let staged = self.with_buffer(inserted);
                    let coord = whole_buffer(self.rest.next_buffer_id, inserted.len_bytes);
                    let (doc, r) = insert_piece(self.doc, at, coord);
                    (EditState { doc, ..staged }, overlay_result(r))
                },
            },
        }
    }

    pub open spec fn delete(self, index: int, start: BufferCoord, end: BufferCoord) -> (
        EditState,
        Result<(), ChangelogError>,
    ) {
        match same_edit_fault(self.allocated, index, EndpointRole::DeleteStart, start) {
            Some(f) => self.fail(f),
            None => match same_edit_fault(self.allocated, index, EndpointRole::DeleteEnd, end) {
                Some(f) => self.fail(f),
                None => {
                    let (doc, r) = delete_text(self.doc, start, end);
                    (EditState { doc, ..self }, overlay_result(r))
                },
            },
        }
    }

    /// One operation of an edit.
    #[verifier::opaque]
    pub open spec fn step(self, index: int, op: PieceTextEditItemManifest) -> (
        EditState,
        Result<(), ChangelogError>,
    ) {
        match op {
            PieceTextEditItemManifest::Insert { at, inserted } => self.insert(index, at, inserted),
            PieceTextEditItemManifest::Delete { start, end } => self.delete(index, start, end),
        }
    }

    /// Operations in their order, up to the first that fails.
    pub open spec fn steps(self, ops: Seq<PieceTextEditItemManifest>) -> (
        EditState,
        Result<(), ChangelogError>,
    )
        decreases ops.len(),
    {
        if ops.len() == 0 {
            (self, Ok(()))
        } else {
            let (before, r) = self.steps(ops.drop_last());
            match r {
                Err(e) => (before, Err(e)),
                Ok(_) => before.step(ops.len() - 1, ops.last()),
            }
        }
    }

    /// The writes that the state amounts to.
    pub open spec fn output(self) -> crate::piece_text_planner::OutputView {
        edit_output(
            self.doc,
            self.rest.pre_head_id,
            self.rest.pre_tail_id,
            self.rest.buffers,
            self.rest.next_buffer_id,
            self.doc.found_coords(),
        )
    }
}

proof fn lemma_steps_stop(state: EditState, ops: Seq<PieceTextEditItemManifest>, n: int)
    requires
        0 <= n <= ops.len(),
        state.steps(ops.take(n)).1 is Err,
    ensures
        state.steps(ops) == state.steps(ops.take(n)),
    decreases ops.len(),
{
    if n == ops.len() {
        assert(ops.take(n) =~= ops);
    } else {
        assert(ops.drop_last().take(n) =~= ops.take(n));
        lemma_steps_stop(state, ops.drop_last(), n);
    }
}

/// Runs the operations of an edit, each on what the earlier ones left.
pub struct IndexedPieceEditPlanner<'a, R: OpReader> {
    store: OverlayPieceStore<'a, R>,
    allocated_buffer_ids: HashSet<i64>,
}

impl<'a, R: OpReader> IndexedPieceEditPlanner<'a, R> {
    pub closed spec fn wf(&self) -> bool {
        self.store.wf()
    }

    pub closed spec fn store(&self) -> OverlayPieceStore<'a, R> {
        self.store
    }

    pub closed spec fn allocated(&self) -> Set<i64> {
        self.allocated_buffer_ids@
    }

    pub open spec fn state(&self) -> EditState {
        EditState {
            doc: self.store().doc(),
            rest: self.store().rest().0,
            allocated: self.allocated(),
        }
    }

    pub fn new(
        reader: &'a mut R,
        address: PieceTextAddress,
        list_number: i64,
        author_id: i64,
        head_id: i64,
        tail_id: i64,
        pre_piece_next_id: i64,
        pre_buffers_next_id: i64,
    ) -> (r: Result<Self, ChangelogError>)
        ensures
            match start_fault(list_number, head_id, tail_id, pre_piece_next_id, pre_buffers_next_id) {
                Some(f) => r == Err::<Self, ChangelogError>(ChangelogError::Overlay(f)) && *final(reader)
                    == *old(reader),
                None => r matches Ok(planner) && {
                    &&& planner.wf()
                    &&& planner.store().log() == old(reader).log()
                    &&& planner.store().rest().1 == old(reader).log()
                    &&& *final(planner.store().tree()) == *final(reader)
                    &&& planner.state().doc.ranges_fit()
                    &&& planner.state() == start_state(
                        old(reader).answers(),
                        address@,
                        list_number,
                        author_id,
                        head_id,
                        tail_id,
                        pre_piece_next_id,
                        pre_buffers_next_id,
                    )
                },
            },
    {
        broadcast use vstd::std_specs::hash::group_hash_axioms;

        let store = OverlayPieceStore::new(
            reader,
            address,
            list_number,
            author_id,
            head_id,
            tail_id,
            pre_piece_next_id,
            pre_buffers_next_id,
        )?;
        Ok(IndexedPieceEditPlanner { store, allocated_buffer_ids: HashSet::new() })
    }

    /// Runs operations in order, up to the first that fails.
    pub fn apply_ops(&mut self, ops: &[PieceTextEditItemManifest]) -> (r: Result<(), ChangelogError>)
        requires
            old(self).wf(),
            old(self).state().doc.ranges_fit(),
        ensures
            final(self).wf(),
            final(self).state().rest.answers == old(self).state().rest.answers,
            final(self).store().rest().1 == old(self).store().rest().1,
            *final(final(self).store().tree()) == *final(old(self).store().tree()),
            (final(self).state(), r) == old(self).state().steps(ops@),
            final(self).state().doc.ranges_fit(),
    {
        let ghost state = self.state();
        let mut done: Result<(), ChangelogError> = Ok(());
        let mut i: usize = 0;
        while i < ops.len()
            invariant
                i <= ops.len(),
                state == old(self).state(),
                self.wf(),
                self.state().rest.answers == old(self).state().rest.answers,
                self.store().rest().1 == old(self).store().rest().1,
                *final(self.store().tree()) == *final(old(self).store().tree()),
                self.state().doc.ranges_fit(),
                done is Ok,
                state.steps(ops@.take(i as int)) == (self.state(), done),
            decreases ops.len() - i,
        {
            proof {
                let seen = ops@.take(i + 1);
                assert(seen.drop_last() =~= ops@.take(i as int));
                assert(seen.last() == ops@[i as int]);
                assert(state.steps(seen) == self.state().step(i as int, ops@[i as int]));
            }
            done = self.apply_op(i, &ops[i]);
            if done.is_err() {
                proof {
                    lemma_steps_stop(state, ops@, i + 1);
                }
                return done;
            }
            i = i + 1;
        }
        assert(ops@.take(i as int) =~= ops@);
        done
    }

    fn apply_op(&mut self, index: usize, op: &PieceTextEditItemManifest) -> (r: Result<(), ChangelogError>)
        requires
            old(self).wf(),
            old(self).state().doc.ranges_fit(),
        ensures
            final(self).wf(),
            final(self).state().rest.answers == old(self).state().rest.answers,
            final(self).store().rest().1 == old(self).store().rest().1,
            *final(final(self).store().tree()) == *final(old(self).store().tree()),
            (final(self).state(), r) == old(self).state().step(index as int, *op),
            final(self).state().doc.ranges_fit(),
    {
        reveal(EditState::step);
        match *op {
            PieceTextEditItemManifest::Insert { at, inserted } => self.apply_insert(index, at, &inserted),
            PieceTextEditItemManifest::Delete { start, end } => self.apply_delete(index, start, end),
        }
    }

    fn check_same_edit(&self, index: usize, role: EndpointRole, coord: BufferCoord) -> (r: Result<
        (),
        ChangelogError,
    >)
        ensures
            r == (match same_edit_fault(self.allocated(), index as int, role, coord) {
                Some(f) => Err::<(), ChangelogError>(ChangelogError::Overlay(f)),
                None => Ok(()),
            }),
    {
        broadcast use vstd::std_specs::hash::group_hash_axioms;

        if coord.buffer_id != 0 && self.allocated_buffer_ids.contains(&coord.buffer_id) {
            return Err(
                ChangelogError::Overlay(
                    EditFault::SameEditBuffer { index, role, buffer_id: coord.buffer_id },
                ),
            );
        }
        Ok(())
    }

    fn apply_insert(&mut self, index: usize, at: BufferCoord, inserted: &InsertedBufferManifest) -> (r: Result<
        (),
        ChangelogError,
    >)
        requires
            old(self).wf(),
            old(self).state().doc.ranges_fit(),
        ensures
            final(self).wf(),
            final(self).state().rest.answers == old(self).state().rest.answers,
            final(self).store().rest().1 == old(self).store().rest().1,
            *final(final(self).store().tree()) == *final(old(self).store().tree()),
            (final(self).state(), r) == old(self).state().insert(index as int, at, *inserted),
            final(self).state().doc.ranges_fit(),
    {
        broadcast use vstd::std_specs::hash::group_hash_axioms;

        self.check_same_edit(index, EndpointRole::Insert, at)?;
        if inserted.len_bytes == 0 {
            return Err(ChangelogError::Overlay(EditFault::EmptyInsert));
        }
        if inserted.len_bytes > MAX_BUFFER_LEN_BYTES {
            return Err(
                ChangelogError::Overlay(EditFault::InsertTooLong { len_bytes: inserted.len_bytes }),
            );
        }
        let new_buffer_id: i64 = self.store.alloc_buffer_id()?;
        self.allocated_buffer_ids.insert(new_buffer_id);
        self.store.stage_buffer_insert(
            new_buffer_id,
            inserted.len_bytes,
            inserted.ciphertext_value_hash,
        );
        let coord = PieceCoord {
            buffer_id: new_buffer_id,
            start_byte: 0,
            len_bytes: inserted.len_bytes,
            tombstone: false,
        };
        to_overlay_result(apply_insert_to_store(&mut self.store, at, coord))
    }

    fn apply_delete(&mut self, index: usize, start: BufferCoord, end: BufferCoord) -> (r: Result<
        (),
        ChangelogError,
    >)
        requires
            old(self).wf(),
            old(self).state().doc.ranges_fit(),
        ensures
            final(self).wf(),
            final(self).state().rest.answers == old(self).state().rest.answers,
            final(self).store().rest().1 == old(self).store().rest().1,
            *final(final(self).store().tree()) == *final(old(self).store().tree()),
            (final(self).state(), r) == old(self).state().delete(index as int, start, end),
            final(self).state().doc.ranges_fit(),
    {
        self.check_same_edit(index, EndpointRole::DeleteStart, start)?;
        self.check_same_edit(index, EndpointRole::DeleteEnd, end)?;
        to_overlay_result(apply_delete_to_store(&mut self.store, start, end))
    }

    /// The document under edit.
    pub fn store_mut(&mut self) -> (store: &mut OverlayPieceStore<'a, R>)
        ensures
            *store == old(self).store(),
            final(self).store() == *final(store),
            final(self).allocated() == old(self).allocated(),
            final(store).wf() ==> final(self).wf(),
            old(self).wf() ==> store.wf(),
    {
        &mut self.store
    }

    /// The writes that the edit amounts to.
    pub fn into_output(self) -> (out: PlannerOutput)
        requires
            self.wf(),
        ensures
            out@ == self.state().output(),
            final(self.store().tree()).answers() == self.state().rest.answers,
            final(self.store().tree()).log() == self.store().rest().1 + self.state().doc.log,
    {
        proof {
            self.store.lemma_log();
        }
        self.store.into_output()
    }

    /// Gives the reader back.
    pub fn release(self)
        requires
            self.wf(),
        ensures
            final(self.store().tree()).answers() == self.state().rest.answers,
            final(self.store().tree()).log() == self.store().rest().1 + self.state().doc.log,
    {
        proof {
            self.store.lemma_log();
        }
        self.store.release();
    }
}

/// The state that an edit starts from.
pub open spec fn start_state(
    answers: Answers,
    owner: AddressView,
    list_number: i64,
    author_id: i64,
    head_id: i64,
    tail_id: i64,
    next_piece_id: i64,
    next_buffer_id: i64,
) -> EditState {
    EditState {
        doc: edit_doc(answers, list_number, head_id, tail_id, next_piece_id),
        rest: OverlayRest {
            answers,
            owner,
            author_id,
            pre_head_id: head_id,
            pre_tail_id: tail_id,
            next_buffer_id,
            buffers: Seq::empty(),
        },
        allocated: Set::empty(),
    }
}

} // verus!
