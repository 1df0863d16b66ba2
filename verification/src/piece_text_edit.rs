//! Inserts and deletions on a document's chain of rows.
//!
//! Every function takes a [`PieceStore`] from one [`Doc`] to another; the spec
//! functions say to which, for every document, well linked or not. Rows read
//! from a store are not trusted to be well linked: each pointer that an edit
//! follows or rewrites is checked against the row that it points to.

use vstd::prelude::*;

use crate::faults::{EditFault, WalkKind};
use crate::piece_text::{BufferCoord, PieceCoord};
use crate::piece_text_planner::{ClampWalk, PieceRow, ResolvePurpose};
use crate::piece_text_resolution::{
    clamp_walk, lemma_matched_row, matched_row, neighbour, read_candidates, resolve_among,
    resolve_coord_core, resolve_core, Doc, EditError, ResolveCoreResult, ResolveSource,
};
use crate::piece_text_planner::ClampDirection;

verus! {

// ---------- writes ----------

impl<E> Doc<E> {
    /// The document with one row changed.
    pub open spec fn with_row(self, row: PieceRow) -> Doc<E> {
        Doc {
            row: |id: i64| if id == row.id { Ok(row) } else { self.at(id) },
            ..self
        }
    }

    pub open spec fn set_prev(self, row_id: i64, prev_id: i64) -> (Doc<E>, Result<(), EditError<E>>) {
        match self.at(row_id) {
            Ok(row) => (self.after_read(row_id).with_row(PieceRow { prev_id, ..row }), Ok(())),
            Err(e) => (self.after_read(row_id), Err(EditError::Store(e))),
        }
    }

    pub open spec fn set_next(self, row_id: i64, next_id: i64) -> (Doc<E>, Result<(), EditError<E>>) {
        match self.at(row_id) {
            Ok(row) => (self.after_read(row_id).with_row(PieceRow { next_id, ..row }), Ok(())),
            Err(e) => (self.after_read(row_id), Err(EditError::Store(e))),
        }
    }

    pub open spec fn set_coord(self, row_id: i64, coord: PieceCoord) -> (
        Doc<E>,
        Result<(), EditError<E>>,
    ) {
        match self.at(row_id) {
            Ok(row) => (self.after_read(row_id).with_row(PieceRow { coord, ..row }), Ok(())),
            Err(e) => (self.after_read(row_id), Err(EditError::Store(e))),
        }
    }

    /// Takes the next free row id.
    pub open spec fn alloc_piece_id(self) -> (Doc<E>, Result<i64, EditError<E>>) {
        if self.next_piece_id == i64::MAX {
            (self, Err(EditError::Fault(EditFault::PieceIdOverflow)))
        } else {
            (
                Doc { next_piece_id: (self.next_piece_id + 1) as i64, ..self },
                Ok(self.next_piece_id),
            )
        }
    }

    /// Adds a row that the document did not have.
    pub open spec fn insert_new_row(self, row_id: i64, prev_id: i64, next_id: i64, coord: PieceCoord) -> (
        Doc<E>,
        Result<(), EditError<E>>,
    ) {
        if row_id <= 0 {
            (self, Err(EditError::Fault(EditFault::RowIdNotPositive { row_id })))
        } else if self.loaded.contains(row_id) {
            (self, Err(EditError::Fault(EditFault::DoubleAllocated { row_id })))
        } else {
            let row = PieceRow { id: row_id, list_number: self.list_number, prev_id, next_id, coord };
            (
                Doc {
                    candidates: |b: i64|
                        match (self.candidates)(b) {
                            Ok(ids) => Ok(
                                if b == coord.buffer_id {
                                    ids.push(row_id)
                                } else {
                                    ids
                                },
                            ),
                            Err(e) => Err(e),
                        },
                    new_ids: self.new_ids.push(row_id),
                    loaded: self.loaded.insert(row_id),
                    ..self.with_row(row)
                },
                Ok(()),
            )
        }
    }

    pub open spec fn head_id(self) -> i64 {
        self.head->Ok_0
    }

    pub open spec fn tail_id(self) -> i64 {
        self.tail->Ok_0
    }

    pub open spec fn set_head(self, head_id: i64) -> Doc<E> {
        Doc { head: Ok(head_id), ..self }
    }

    pub open spec fn set_tail(self, tail_id: i64) -> Doc<E> {
        Doc { tail: Ok(tail_id), ..self }
    }
}

/// A document that can be edited. Its endpoints are known.
pub trait PieceStore: ResolveSource {
    proof fn lemma_endpoints_known(&self)
        requires
            self.wf(),
        ensures
            self.doc().head is Ok,
            self.doc().tail is Ok,
    ;

    fn store_head(&self) -> (id: i64)
        requires
            self.wf(),
        ensures
            id == self.doc().head_id(),
    ;

    fn store_tail(&self) -> (id: i64)
        requires
            self.wf(),
        ensures
            id == self.doc().tail_id(),
    ;

    fn store_set_head(&mut self, head_id: i64)
        requires
            old(self).wf(),
        ensures
            final(self).wf(),
            final(self).rest() == old(self).rest(),
            *final(final(self).tree()) == *final(old(self).tree()),
            final(self).doc() == old(self).doc().set_head(head_id),
    ;

    fn store_set_tail(&mut self, tail_id: i64)
        requires
            old(self).wf(),
        ensures
            final(self).wf(),
            final(self).rest() == old(self).rest(),
            *final(final(self).tree()) == *final(old(self).tree()),
            final(self).doc() == old(self).doc().set_tail(tail_id),
    ;

    fn store_set_prev(&mut self, row_id: i64, prev_id: i64) -> (r: Result<(), EditError<Self::Error>>)
        requires
            old(self).wf(),
        ensures
            final(self).wf(),
            final(self).rest() == old(self).rest(),
            *final(final(self).tree()) == *final(old(self).tree()),
            (final(self).doc(), r) == old(self).doc().set_prev(row_id, prev_id),
    ;

    fn store_set_next(&mut self, row_id: i64, next_id: i64) -> (r: Result<(), EditError<Self::Error>>)
        requires
            old(self).wf(),
        ensures
            final(self).wf(),
            final(self).rest() == old(self).rest(),
            *final(final(self).tree()) == *final(old(self).tree()),
            (final(self).doc(), r) == old(self).doc().set_next(row_id, next_id),
    ;

    fn store_set_coord(&mut self, row_id: i64, coord: PieceCoord) -> (r: Result<
        (),
        EditError<Self::Error>,
    >)
        requires
            old(self).wf(),
        ensures
            final(self).wf(),
            final(self).rest() == old(self).rest(),
            *final(final(self).tree()) == *final(old(self).tree()),
            (final(self).doc(), r) == old(self).doc().set_coord(row_id, coord),
    ;

    fn store_insert_row(&mut self, row_id: i64, prev_id: i64, next_id: i64, coord: PieceCoord) -> (r: Result<
        (),
        EditError<Self::Error>,
    >)
        requires
            old(self).wf(),
        ensures
            final(self).wf(),
            final(self).rest() == old(self).rest(),
            *final(final(self).tree()) == *final(old(self).tree()),
            (final(self).doc(), r) == old(self).doc().insert_new_row(row_id, prev_id, next_id, coord),
    ;

    fn store_alloc_piece_id(&mut self) -> (r: Result<i64, EditError<Self::Error>>)
        requires
            old(self).wf(),
        ensures
            final(self).wf(),
            final(self).rest() == old(self).rest(),
            *final(final(self).tree()) == *final(old(self).tree()),
            (final(self).doc(), r) == old(self).doc().alloc_piece_id(),
    ;

    /// No chain without a cycle has more rows than this.
    fn piece_id_ceiling(&self) -> (cap: i64)
        requires
            self.wf(),
        ensures
            cap == self.doc().next_piece_id,
    ;

    fn record_clamp(&mut self, walk: ClampWalk)
        requires
            old(self).wf(),
        ensures
            final(self).wf(),
            final(self).rest() == old(self).rest(),
            *final(final(self).tree()) == *final(old(self).tree()),
            final(self).doc() == (Doc { clamps: old(self).doc().clamps.push(walk), ..old(self).doc() }),
    ;
}

/// The document has changed by nothing but what was read of it, and all that
/// was read is there.
pub open spec fn only_read<E>(before: Doc<E>, after: Doc<E>) -> bool {
    &&& after == (Doc {
        loaded: after.loaded,
        lookups: after.lookups,
        clamps: after.clamps,
        log: after.log,
        ..before
    })
    &&& before.loaded.subset_of(after.loaded)
    &&& forall|id: i64| #[trigger]
        after.loaded.contains(id) ==> before.loaded.contains(id) || before.at(id) is Ok
}

// ---------- coordinates ----------

/// Where an edit's coordinate lies, with deleted rows stepped over.
#[derive(Clone, Copy, Debug, PartialEq, Eq, Structural)]
pub enum ResolveMatch {
    BeforeHead,
    InRow { row: PieceRow, k: u32 },
    AfterClamp { row_id: i64 },
    BeforeHeadClamped,
    AfterTailClamped,
}

/// The walk over deleted rows that a resolution took, if it took one.
pub open spec fn walk_of(result: ResolveCoreResult, purpose: ResolvePurpose) -> Option<ClampWalk> {
    match result {
        ResolveCoreResult::ClampedToRow { row, start_row_id, direction, hops } => Some(
            ClampWalk { start_row_id, direction, purpose, hops, end_row_id: Some(row.id) },
        ),
        ResolveCoreResult::ClampedBeforeHead { head_id, start_row_id, direction, hops } => Some(
            ClampWalk { start_row_id, direction, purpose, hops, end_row_id: None },
        ),
        ResolveCoreResult::ClampedAfterTail { tail_id, start_row_id, direction, hops } => Some(
            ClampWalk { start_row_id, direction, purpose, hops, end_row_id: None },
        ),
        ResolveCoreResult::DocumentStart { .. } => None,
        ResolveCoreResult::InRow { .. } => None,
    }
}

pub open spec fn match_of(result: ResolveCoreResult) -> ResolveMatch {
    match result {
        ResolveCoreResult::DocumentStart { .. } => ResolveMatch::BeforeHead,
        ResolveCoreResult::InRow { row, offset } => ResolveMatch::InRow { row, k: offset },
        ResolveCoreResult::ClampedToRow { row, .. } => ResolveMatch::AfterClamp { row_id: row.id },
        ResolveCoreResult::ClampedBeforeHead { .. } => ResolveMatch::BeforeHeadClamped,
        ResolveCoreResult::ClampedAfterTail { .. } => ResolveMatch::AfterTailClamped,
    }
}

pub open spec fn resolve_coord<E>(doc: Doc<E>, coord: BufferCoord, purpose: ResolvePurpose) -> (
    Doc<E>,
    Result<ResolveMatch, EditError<E>>,
) {
    let (d, r) = resolve_core(doc, coord, purpose);
    match r {
        Err(e) => (d, Err(e)),
        Ok(out) => (
            match walk_of(out.result, purpose) {
                Some(w) => Doc { clamps: d.clamps.push(w), ..d },
                None => d,
            },
            Ok(match_of(out.result)),
        ),
    }
}

/// Notes the walk over deleted rows that a resolution took.
fn record_clamp_walk<S: PieceStore>(store: &mut S, result: &ResolveCoreResult, purpose: ResolvePurpose)
    requires
        old(store).wf(),
    ensures
        final(store).wf(),
        final(store).rest() == old(store).rest(),
        *final(final(store).tree()) == *final(old(store).tree()),
        final(store).doc() == (match walk_of(*result, purpose) {
            Some(w) => Doc { clamps: old(store).doc().clamps.push(w), ..old(store).doc() },
            None => old(store).doc(),
        }),
{
    match *result {
        ResolveCoreResult::ClampedToRow { row, start_row_id, direction, hops } => {
            store.record_clamp(
                ClampWalk { start_row_id, direction, purpose, hops, end_row_id: Some(row.id) },
            );
        },
        ResolveCoreResult::ClampedBeforeHead { start_row_id, direction, hops, .. } => {
            store.record_clamp(ClampWalk { start_row_id, direction, purpose, hops, end_row_id: None });
        },
        ResolveCoreResult::ClampedAfterTail { start_row_id, direction, hops, .. } => {
            store.record_clamp(ClampWalk { start_row_id, direction, purpose, hops, end_row_id: None });
        },
        ResolveCoreResult::DocumentStart { .. } | ResolveCoreResult::InRow { .. } => {},
    }
}

fn resolve_store_coord<S: PieceStore>(store: &mut S, coord: BufferCoord, purpose: ResolvePurpose) -> (r:
    Result<ResolveMatch, EditError<S::Error>>)
    requires
        old(store).wf(),
    ensures
        final(store).wf(),
        final(store).rest() == old(store).rest(),
        *final(final(store).tree()) == *final(old(store).tree()),
        (final(store).doc(), r) == resolve_coord(old(store).doc(), coord, purpose),
{
    let output = resolve_coord_core(store, coord, purpose)?;
    record_clamp_walk(store, &output.result, purpose);
    Ok(
        match output.result {
            ResolveCoreResult::DocumentStart { .. } => ResolveMatch::BeforeHead,
            ResolveCoreResult::InRow { row, offset } => ResolveMatch::InRow { row, k: offset },
            ResolveCoreResult::ClampedToRow { row, .. } => ResolveMatch::AfterClamp { row_id: row.id },
            ResolveCoreResult::ClampedBeforeHead { .. } => ResolveMatch::BeforeHeadClamped,
            ResolveCoreResult::ClampedAfterTail { .. } => ResolveMatch::AfterTailClamped,
        },
    )
}

fn read<S: PieceStore>(store: &mut S, row_id: i64) -> (r: Result<PieceRow, EditError<S::Error>>)
    requires
        old(store).wf(),
    ensures
        final(store).wf(),
        final(store).rest() == old(store).rest(),
        *final(final(store).tree()) == *final(old(store).tree()),
        (final(store).doc(), r) == old(store).doc().read(row_id),
{
    match store.read_row(row_id) {
        Ok(row) => Ok(row),
        Err(e) => Err(EditError::Store(e)),
    }
}

// ---------- steps along the chain ----------

/// The row after a row. Its back pointer must agree, and a row without a
/// successor must be the tail.
pub open spec fn step_forward<E>(doc: Doc<E>, row: PieceRow) -> (
    Doc<E>,
    Result<Option<PieceRow>, EditError<E>>,
) {
    if row.next_id == 0 {
        if row.id != doc.tail_id() {
            (
                doc,
                Err(EditError::Fault(EditFault::NotTail { row_id: row.id, tail_id: doc.tail_id() })),
            )
        } else {
            (doc, Ok(None))
        }
    } else {
        let (d, r) = doc.read(row.next_id);
        match r {
            Err(e) => (d, Err(e)),
            Ok(next) => if next.prev_id != row.id {
                (
                    d,
                    Err(
                        EditError::Fault(
                            EditFault::PrevMismatch {
                                row_id: next.id,
                                prev_id: next.prev_id,
                                expected: row.id,
                            },
                        ),
                    ),
                )
            } else {
                (d, Ok(Some(next)))
            },
        }
    }
}

/// The row before a row, by the same rules.
pub open spec fn step_backward<E>(doc: Doc<E>, row: PieceRow) -> (
    Doc<E>,
    Result<Option<PieceRow>, EditError<E>>,
) {
    if row.prev_id == 0 {
        if row.id != doc.head_id() {
            (
                doc,
                Err(EditError::Fault(EditFault::NotHead { row_id: row.id, head_id: doc.head_id() })),
            )
        } else {
            (doc, Ok(None))
        }
    } else {
        let (d, r) = doc.read(row.prev_id);
        match r {
            Err(e) => (d, Err(e)),
            Ok(prev) => if prev.next_id != row.id {
                (
                    d,
                    Err(
                        EditError::Fault(
                            EditFault::NextMismatch {
                                row_id: prev.id,
                                next_id: prev.next_id,
                                expected: row.id,
                            },
                        ),
                    ),
                )
            } else {
                (d, Ok(Some(prev)))
            },
        }
    }
}

fn do_step_forward<S: PieceStore>(store: &mut S, row: &PieceRow) -> (r: Result<
    Option<PieceRow>,
    EditError<S::Error>,
>)
    requires
        old(store).wf(),
    ensures
        final(store).wf(),
        final(store).rest() == old(store).rest(),
        *final(final(store).tree()) == *final(old(store).tree()),
        (final(store).doc(), r) == step_forward(old(store).doc(), *row),
{
    if row.next_id == 0 {
        let tail_id: i64 = store.store_tail();
        if row.id != tail_id {
            return Err(EditError::Fault(EditFault::NotTail { row_id: row.id, tail_id }));
        }
        return Ok(None);
    }
    let next = read(store, row.next_id)?;
    if next.prev_id != row.id {
        return Err(
            EditError::Fault(
                EditFault::PrevMismatch {
                    row_id: next.id,
                    prev_id: next.prev_id,
                    expected: row.id,
                },
            ),
        );
    }
    Ok(Some(next))
}

fn do_step_backward<S: PieceStore>(store: &mut S, row: &PieceRow) -> (r: Result<
    Option<PieceRow>,
    EditError<S::Error>,
>)
    requires
        old(store).wf(),
    ensures
        final(store).wf(),
        final(store).rest() == old(store).rest(),
        *final(final(store).tree()) == *final(old(store).tree()),
        (final(store).doc(), r) == step_backward(old(store).doc(), *row),
{
    if row.prev_id == 0 {
        let head_id: i64 = store.store_head();
        if row.id != head_id {
            return Err(EditError::Fault(EditFault::NotHead { row_id: row.id, head_id }));
        }
        return Ok(None);
    }
    let prev = read(store, row.prev_id)?;
    if prev.next_id != row.id {
        return Err(
            EditError::Fault(
                EditFault::NextMismatch {
                    row_id: prev.id,
                    next_id: prev.next_id,
                    expected: row.id,
                },
            ),
        );
    }
    Ok(Some(prev))
}

/// The nearest live row before `row`. A walk of more than `cap` rows has run
/// into a cycle.
pub open spec fn live_before<E>(doc: Doc<E>, row: PieceRow, hops: int, cap: int, kind: WalkKind) -> (
    Doc<E>,
    Result<Option<PieceRow>, EditError<E>>,
)
    decreases cap - hops,
{
    let (d, r) = step_backward(doc, row);
    match r {
        Err(e) => (d, Err(e)),
        Ok(None) => (d, Ok(None)),
        Ok(Some(prev)) => if !prev.coord.tombstone {
            (d, Ok(Some(prev)))
        } else if hops + 1 > cap {
            (d, Err(EditError::Fault(EditFault::WalkTooLong(kind))))
        } else {
            live_before(d, prev, hops + 1, cap, kind)
        },
    }
}

/// The nearest live row after `row`.
pub open spec fn live_after<E>(doc: Doc<E>, row: PieceRow, hops: int, cap: int, kind: WalkKind) -> (
    Doc<E>,
    Result<Option<PieceRow>, EditError<E>>,
)
    decreases cap - hops,
{
    let (d, r) = step_forward(doc, row);
    match r {
        Err(e) => (d, Err(e)),
        Ok(None) => (d, Ok(None)),
        Ok(Some(next)) => if !next.coord.tombstone {
            (d, Ok(Some(next)))
        } else if hops + 1 > cap {
            (d, Err(EditError::Fault(EditFault::WalkTooLong(kind))))
        } else {
            live_after(d, next, hops + 1, cap, kind)
        },
    }
}

fn find_live_before<S: PieceStore>(store: &mut S, row: PieceRow, kind: WalkKind) -> (r: Result<
    Option<PieceRow>,
    EditError<S::Error>,
>)
    requires
        old(store).wf(),
    ensures
        final(store).wf(),
        final(store).rest() == old(store).rest(),
        *final(final(store).tree()) == *final(old(store).tree()),
        (final(store).doc(), r) == live_before(
            old(store).doc(),
            row,
            0,
            old(store).doc().next_piece_id as int,
            kind,
        ),
{
    let cap: i64 = store.piece_id_ceiling();
    let mut cur = row;
    let mut hops: i64 = 0;
    loop
        invariant
            store.wf(),
            store.rest() == old(store).rest(),
            *final(store.tree()) == *final(old(store).tree()),
            cap == old(store).doc().next_piece_id,
            0 <= hops,
            hops <= cap || hops == 0,
            live_before(old(store).doc(), row, 0, cap as int, kind) == live_before(
                store.doc(),
                cur,
                hops as int,
                cap as int,
                kind,
            ),
        decreases cap - hops,
    {
        match do_step_backward(store, &cur)? {
            None => {
                return Ok(None);
            },
            Some(prev) => {
                if !prev.coord.tombstone {
                    return Ok(Some(prev));
                }
                cur = prev;
            },
        }
        if hops >= cap {
            return Err(EditError::Fault(EditFault::WalkTooLong(kind)));
        }
        hops = hops + 1;
    }
}

fn find_live_after<S: PieceStore>(store: &mut S, row: PieceRow, kind: WalkKind) -> (r: Result<
    Option<PieceRow>,
    EditError<S::Error>,
>)
    requires
        old(store).wf(),
    ensures
        final(store).wf(),
        final(store).rest() == old(store).rest(),
        *final(final(store).tree()) == *final(old(store).tree()),
        (final(store).doc(), r) == live_after(
            old(store).doc(),
            row,
            0,
            old(store).doc().next_piece_id as int,
            kind,
        ),
{
    let cap: i64 = store.piece_id_ceiling();
    let mut cur = row;
    let mut hops: i64 = 0;
    loop
        invariant
            store.wf(),
            store.rest() == old(store).rest(),
            *final(store.tree()) == *final(old(store).tree()),
            cap == old(store).doc().next_piece_id,
            0 <= hops,
            hops <= cap || hops == 0,
            live_after(old(store).doc(), row, 0, cap as int, kind) == live_after(
                store.doc(),
                cur,
                hops as int,
                cap as int,
                kind,
            ),
        decreases cap - hops,
    {
        match do_step_forward(store, &cur)? {
            None => {
                return Ok(None);
            },
            Some(next) => {
                if !next.coord.tombstone {
                    return Ok(Some(next));
                }
                cur = next;
            },
        }
        if hops >= cap {
            return Err(EditError::Fault(EditFault::WalkTooLong(kind)));
        }
        hops = hops + 1;
    }
}


/// The first live row at or after `row`, on a walk from the head.
pub open spec fn live_from_head<E>(doc: Doc<E>, row: PieceRow, hops: int, cap: int) -> (
    Doc<E>,
    Result<Option<i64>, EditError<E>>,
)
    decreases cap - hops,
{
    if !row.coord.tombstone {
        (doc, Ok(Some(row.id)))
    } else {
        let (d, r) = step_forward(doc, row);
        match r {
            Err(e) => (d, Err(e)),
            Ok(None) => (d, Ok(None)),
            Ok(Some(next)) => if hops + 1 > cap {
                (d, Err(EditError::Fault(EditFault::WalkTooLong(WalkKind::FirstLive))))
            } else {
                live_from_head(d, next, hops + 1, cap)
            },
        }
    }
}

/// The first live row at or before `row`, on a walk from the tail.
pub open spec fn live_from_tail<E>(doc: Doc<E>, row: PieceRow, hops: int, cap: int) -> (
    Doc<E>,
    Result<Option<i64>, EditError<E>>,
)
    decreases cap - hops,
{
    if !row.coord.tombstone {
        (doc, Ok(Some(row.id)))
    } else {
        let (d, r) = step_backward(doc, row);
        match r {
            Err(e) => (d, Err(e)),
            Ok(None) => (d, Ok(None)),
            Ok(Some(next)) => if hops + 1 > cap {
                (d, Err(EditError::Fault(EditFault::WalkTooLong(WalkKind::LastLive))))
            } else {
                live_from_tail(d, next, hops + 1, cap)
            },
        }
    }
}

/// The first live row of the document.
pub open spec fn first_live_row<E>(doc: Doc<E>) -> (Doc<E>, Result<Option<i64>, EditError<E>>) {
    if doc.head_id() == 0 {
        (doc, Ok(None))
    } else {
        let (d, r) = doc.read(doc.head_id());
        match r {
            Err(e) => (d, Err(e)),
            Ok(row) => if row.prev_id != 0 {
                (
                    d,
                    Err(
                        EditError::Fault(
                            EditFault::HeadHasPrev { row_id: doc.head_id(), prev_id: row.prev_id },
                        ),
                    ),
                )
            } else {
                live_from_head(d, row, 0, doc.next_piece_id as int)
            },
        }
    }
}

fn find_first_live_row<S: PieceStore>(store: &mut S) -> (r: Result<Option<i64>, EditError<S::Error>>)
    requires
        old(store).wf(),
    ensures
        final(store).wf(),
        final(store).rest() == old(store).rest(),
        *final(final(store).tree()) == *final(old(store).tree()),
        (final(store).doc(), r) == first_live_row(old(store).doc()),
{
    let head_id: i64 = store.store_head();
    if head_id == 0 {
        return Ok(None);
    }
    let cap: i64 = store.piece_id_ceiling();
    let row = read(store, head_id)?;
    if row.prev_id != 0 {
        return Err(EditError::Fault(EditFault::HeadHasPrev { row_id: head_id, prev_id: row.prev_id }));
    }
    let ghost start = store.doc();
    let mut cur = row;
    let mut hops: i64 = 0;
    loop
        invariant
            store.wf(),
            store.rest() == old(store).rest(),
            *final(store.tree()) == *final(old(store).tree()),
            0 <= hops,
            hops <= cap || hops == 0,
            first_live_row(old(store).doc()) == live_from_head(start, row, 0, cap as int),
            live_from_head(start, row, 0, cap as int) == live_from_head(store.doc(), cur, hops as int, cap as int),
        decreases cap - hops,
    {
        if !cur.coord.tombstone {
            return Ok(Some(cur.id));
        }
        match do_step_forward(store, &cur)? {
            None => {
                return Ok(None);
            },
            Some(next) => {
                cur = next;
            },
        }
        if hops >= cap {
            return Err(EditError::Fault(EditFault::WalkTooLong(WalkKind::FirstLive)));
        }
        hops = hops + 1;
    }
}

/// The last live row of the document.
pub open spec fn last_live_row<E>(doc: Doc<E>) -> (Doc<E>, Result<Option<i64>, EditError<E>>) {
    if doc.tail_id() == 0 {
        (doc, Ok(None))
    } else {
        let (d, r) = doc.read(doc.tail_id());
        match r {
            Err(e) => (d, Err(e)),
            Ok(row) => if row.next_id != 0 {
                (
                    d,
                    Err(
                        EditError::Fault(
                            EditFault::TailHasNext { row_id: doc.tail_id(), next_id: row.next_id },
                        ),
                    ),
                )
            } else {
                live_from_tail(d, row, 0, doc.next_piece_id as int)
            },
        }
    }
}

fn find_last_live_row<S: PieceStore>(store: &mut S) -> (r: Result<Option<i64>, EditError<S::Error>>)
    requires
        old(store).wf(),
    ensures
        final(store).wf(),
        final(store).rest() == old(store).rest(),
        *final(final(store).tree()) == *final(old(store).tree()),
        (final(store).doc(), r) == last_live_row(old(store).doc()),
{
    let tail_id: i64 = store.store_tail();
    if tail_id == 0 {
        return Ok(None);
    }
    let cap: i64 = store.piece_id_ceiling();
    let row = read(store, tail_id)?;
    if row.next_id != 0 {
        return Err(EditError::Fault(EditFault::TailHasNext { row_id: tail_id, next_id: row.next_id }));
    }
    let ghost start = store.doc();
    let mut cur = row;
    let mut hops: i64 = 0;
    loop
        invariant
            store.wf(),
            store.rest() == old(store).rest(),
            *final(store.tree()) == *final(old(store).tree()),
            0 <= hops,
            hops <= cap || hops == 0,
            last_live_row(old(store).doc()) == live_from_tail(start, row, 0, cap as int),
            live_from_tail(start, row, 0, cap as int) == live_from_tail(store.doc(), cur, hops as int, cap as int),
        decreases cap - hops,
    {
        if !cur.coord.tombstone {
            return Ok(Some(cur.id));
        }
        match do_step_backward(store, &cur)? {
            None => {
                return Ok(None);
            },
            Some(next) => {
                cur = next;
            },
        }
        if hops >= cap {
            return Err(EditError::Fault(EditFault::WalkTooLong(WalkKind::LastLive)));
        }
        hops = hops + 1;
    }
}

/// Whether row `b_id` comes after `row`, found by walking forward.
pub open spec fn reaches<E>(doc: Doc<E>, row: PieceRow, b_id: i64, hops: int, cap: int) -> (
    Doc<E>,
    Result<bool, EditError<E>>,
)
    decreases cap - hops,
{
    let (d, r) = step_forward(doc, row);
    match r {
        Err(e) => (d, Err(e)),
        Ok(None) => (d, Ok(false)),
        Ok(Some(next)) => if next.id == b_id {
            (d, Ok(true))
        } else if hops + 1 > cap {
            (d, Err(EditError::Fault(EditFault::WalkTooLong(WalkKind::Order))))
        } else {
            reaches(d, next, b_id, hops + 1, cap)
        },
    }
}

/// Whether row `a_id` comes before row `b_id`.
pub open spec fn precedes<E>(doc: Doc<E>, a_id: i64, b_id: i64) -> (Doc<E>, Result<bool, EditError<E>>) {
    let (d, r) = doc.read(a_id);
    match r {
        Err(e) => (d, Err(e)),
        Ok(row) => reaches(d, row, b_id, 0, doc.next_piece_id as int),
    }
}

fn chain_walk_lt<S: PieceStore>(store: &mut S, a_id: i64, b_id: i64) -> (r: Result<
    bool,
    EditError<S::Error>,
>)
    requires
        old(store).wf(),
    ensures
        final(store).wf(),
        final(store).rest() == old(store).rest(),
        *final(final(store).tree()) == *final(old(store).tree()),
        (final(store).doc(), r) == precedes(old(store).doc(), a_id, b_id),
{
    let cap: i64 = store.piece_id_ceiling();
    let row = read(store, a_id)?;
    let ghost start = store.doc();
    let mut cur = row;
    let mut hops: i64 = 0;
    loop
        invariant
            store.wf(),
            store.rest() == old(store).rest(),
            *final(store.tree()) == *final(old(store).tree()),
            0 <= hops,
            hops <= cap || hops == 0,
            precedes(old(store).doc(), a_id, b_id) == reaches(start, row, b_id, 0, cap as int),
            reaches(start, row, b_id, 0, cap as int) == reaches(
                store.doc(),
                cur,
                b_id,
                hops as int,
                cap as int,
            ),
        decreases cap - hops,
    {
        match do_step_forward(store, &cur)? {
            None => {
                return Ok(false);
            },
            Some(next) => {
                if next.id == b_id {
                    return Ok(true);
                }
                cur = next;
            },
        }
        if hops >= cap {
            return Err(EditError::Fault(EditFault::WalkTooLong(WalkKind::Order)));
        }
        hops = hops + 1;
    }
}

// ---------- delete positions ----------

/// A place between two bytes of the rendered text. `InRow` is inside a live row
/// or at its right edge; every gap has one such form.
#[derive(Clone, Copy, Debug, PartialEq, Eq, Structural)]
pub enum DeletePos {
    BeforeHead,
    InRow { row_id: i64, k: u32 },
    AfterTail,
}

/// How one position lies to another.
#[derive(Clone, Copy, Debug, PartialEq, Eq, Structural)]
pub enum PosOrder {
    Less,
    Equal,
    Greater,
}

/// The position `k` bytes into a live row, in its one form: the left edge of a
/// row is the right edge of the live row before it, and the right edge of the
/// last live row is the end of the document.
pub open spec fn canonical_pos<E>(doc: Doc<E>, row_id: i64, k: u32) -> (
    Doc<E>,
    Result<DeletePos, EditError<E>>,
) {
    let cap = doc.next_piece_id as int;
    let (d, r) = doc.read(row_id);
    match r {
        Err(e) => (d, Err(e)),
        Ok(row) => if k == 0 {
            let (d2, r2) = live_before(d, row, 0, cap, WalkKind::Canonical);
            (
                d2,
                match r2 {
                    Err(e) => Err(e),
                    Ok(None) => Ok(DeletePos::BeforeHead),
                    Ok(Some(prev)) => Ok(DeletePos::InRow { row_id: prev.id, k: prev.coord.len_bytes }),
                },
            )
        } else if k == row.coord.len_bytes {
            let (d2, r2) = live_after(d, row, 0, cap, WalkKind::Canonical);
            (
                d2,
                match r2 {
                    Err(e) => Err(e),
                    Ok(None) => Ok(DeletePos::AfterTail),
                    Ok(Some(_)) => Ok(DeletePos::InRow { row_id, k }),
                },
            )
        } else {
            (d, Ok(DeletePos::InRow { row_id, k }))
        },
    }
}

fn canonicalize_in_row<S: PieceStore>(store: &mut S, row_id: i64, k: u32) -> (r: Result<
    DeletePos,
    EditError<S::Error>,
>)
    requires
        old(store).wf(),
    ensures
        final(store).wf(),
        final(store).rest() == old(store).rest(),
        *final(final(store).tree()) == *final(old(store).tree()),
        (final(store).doc(), r) == canonical_pos(old(store).doc(), row_id, k),
{
    let row = read(store, row_id)?;
    if k == 0 {
        return match find_live_before(store, row, WalkKind::Canonical)? {
            None => Ok(DeletePos::BeforeHead),
            Some(prev) => Ok(DeletePos::InRow { row_id: prev.id, k: prev.coord.len_bytes }),
        };
    }
    if k == row.coord.len_bytes {
        return match find_live_after(store, row, WalkKind::Canonical)? {
            None => Ok(DeletePos::AfterTail),
            Some(_) => Ok(DeletePos::InRow { row_id, k }),
        };
    }
    Ok(DeletePos::InRow { row_id, k })
}

/// Where a deletion starts.
pub open spec fn delete_start<E>(doc: Doc<E>, coord: BufferCoord) -> (
    Doc<E>,
    Result<DeletePos, EditError<E>>,
) {
    let (d, r) = resolve_coord(doc, coord, ResolvePurpose::DeleteStart);
    match r {
        Err(e) => (d, Err(e)),
        Ok(ResolveMatch::BeforeHead) => (d, Ok(DeletePos::BeforeHead)),
        Ok(ResolveMatch::AfterTailClamped) => (d, Ok(DeletePos::AfterTail)),
        Ok(ResolveMatch::AfterClamp { row_id }) => canonical_pos(d, row_id, 0),
        Ok(ResolveMatch::InRow { row, k }) => canonical_pos(d, row.id, k),
        Ok(ResolveMatch::BeforeHeadClamped) => (
            d,
            Err(EditError::Fault(EditFault::DeleteStartClampedBackward)),
        ),
    }
}

/// Where a deletion ends.
pub open spec fn delete_end<E>(doc: Doc<E>, coord: BufferCoord) -> (
    Doc<E>,
    Result<DeletePos, EditError<E>>,
) {
    let (d, r) = resolve_coord(doc, coord, ResolvePurpose::DeleteEnd);
    match r {
        Err(e) => (d, Err(e)),
        Ok(ResolveMatch::BeforeHead) => (d, Ok(DeletePos::BeforeHead)),
        Ok(ResolveMatch::BeforeHeadClamped) => (d, Ok(DeletePos::BeforeHead)),
        Ok(ResolveMatch::AfterClamp { row_id }) => {
            let (d2, r2) = d.read(row_id);
            match r2 {
                Err(e) => (d2, Err(e)),
                Ok(row) => canonical_pos(d2, row_id, row.coord.len_bytes),
            }
        },
        Ok(ResolveMatch::InRow { row, k }) => canonical_pos(d, row.id, k),
        Ok(ResolveMatch::AfterTailClamped) => (
            d,
            Err(EditError::Fault(EditFault::DeleteEndClampedForward)),
        ),
    }
}

fn resolve_delete_start<S: PieceStore>(store: &mut S, coord: BufferCoord) -> (r: Result<
    DeletePos,
    EditError<S::Error>,
>)
    requires
        old(store).wf(),
    ensures
        final(store).wf(),
        final(store).rest() == old(store).rest(),
        *final(final(store).tree()) == *final(old(store).tree()),
        (final(store).doc(), r) == delete_start(old(store).doc(), coord),
{
    match resolve_store_coord(store, coord, ResolvePurpose::DeleteStart)? {
        ResolveMatch::BeforeHead => Ok(DeletePos::BeforeHead),
        ResolveMatch::AfterTailClamped => Ok(DeletePos::AfterTail),
        ResolveMatch::AfterClamp { row_id } => canonicalize_in_row(store, row_id, 0),
        ResolveMatch::InRow { row, k } => canonicalize_in_row(store, row.id, k),
        ResolveMatch::BeforeHeadClamped => Err(
            EditError::Fault(EditFault::DeleteStartClampedBackward),
        ),
    }
}

fn resolve_delete_end<S: PieceStore>(store: &mut S, coord: BufferCoord) -> (r: Result<
    DeletePos,
    EditError<S::Error>,
>)
    requires
        old(store).wf(),
    ensures
        final(store).wf(),
        final(store).rest() == old(store).rest(),
        *final(final(store).tree()) == *final(old(store).tree()),
        (final(store).doc(), r) == delete_end(old(store).doc(), coord),
{
    match resolve_store_coord(store, coord, ResolvePurpose::DeleteEnd)? {
        ResolveMatch::BeforeHead | ResolveMatch::BeforeHeadClamped => Ok(DeletePos::BeforeHead),
        ResolveMatch::AfterClamp { row_id } => {
            let row = read(store, row_id)?;
            canonicalize_in_row(store, row_id, row.coord.len_bytes)
        },
        ResolveMatch::InRow { row, k } => canonicalize_in_row(store, row.id, k),
        ResolveMatch::AfterTailClamped => Err(EditError::Fault(EditFault::DeleteEndClampedForward)),
    }
}

pub open spec fn is_extreme(pos: DeletePos) -> bool {
    pos is BeforeHead || pos is AfterTail
}

/// The order of two positions by their form, for all but two different rows.
pub open spec fn order_by_form(a: DeletePos, b: DeletePos) -> PosOrder {
    match (a, b) {
        (DeletePos::BeforeHead, DeletePos::BeforeHead) => PosOrder::Equal,
        (DeletePos::BeforeHead, _) => PosOrder::Less,
        (_, DeletePos::BeforeHead) => PosOrder::Greater,
        (DeletePos::AfterTail, DeletePos::AfterTail) => PosOrder::Equal,
        (DeletePos::AfterTail, _) => PosOrder::Greater,
        (_, DeletePos::AfterTail) => PosOrder::Less,
        (DeletePos::InRow { k: k1, .. }, DeletePos::InRow { k: k2, .. }) => if k1 < k2 {
            PosOrder::Less
        } else if k1 == k2 {
            PosOrder::Equal
        } else {
            PosOrder::Greater
        },
    }
}

/// The order of two positions. Without a live row the start and the end of the
/// document are the same place.
pub open spec fn position_order<E>(doc: Doc<E>, a: DeletePos, b: DeletePos) -> (
    Doc<E>,
    Result<PosOrder, EditError<E>>,
) {
    if is_extreme(a) && is_extreme(b) {
        let (d, r) = first_live_row(doc);
        (
            d,
            match r {
                Err(e) => Err(e),
                Ok(None) => Ok(PosOrder::Equal),
                Ok(Some(_)) => Ok(order_by_form(a, b)),
            },
        )
    } else {
        match (a, b) {
            (DeletePos::InRow { row_id: r1, .. }, DeletePos::InRow { row_id: r2, .. }) if r1 != r2 => {
                let (d, r) = precedes(doc, r1, r2);
                (
                    d,
                    match r {
                        Err(e) => Err(e),
                        Ok(true) => Ok(PosOrder::Less),
                        Ok(false) => Ok(PosOrder::Greater),
                    },
                )
            },
            _ => (doc, Ok(order_by_form(a, b))),
        }
    }
}

fn compare_positions<S: PieceStore>(store: &mut S, a: DeletePos, b: DeletePos) -> (r: Result<
    PosOrder,
    EditError<S::Error>,
>)
    requires
        old(store).wf(),
    ensures
        final(store).wf(),
        final(store).rest() == old(store).rest(),
        *final(final(store).tree()) == *final(old(store).tree()),
        (final(store).doc(), r) == position_order(old(store).doc(), a, b),
{
    let a_extreme = matches!(a, DeletePos::BeforeHead | DeletePos::AfterTail);
    let b_extreme = matches!(b, DeletePos::BeforeHead | DeletePos::AfterTail);
    if a_extreme && b_extreme {
        if find_first_live_row(store)?.is_none() {
            return Ok(PosOrder::Equal);
        }
    }
    match (a, b) {
        (DeletePos::BeforeHead, DeletePos::BeforeHead) => Ok(PosOrder::Equal),
        (DeletePos::BeforeHead, _) => Ok(PosOrder::Less),
        (_, DeletePos::BeforeHead) => Ok(PosOrder::Greater),
        (DeletePos::AfterTail, DeletePos::AfterTail) => Ok(PosOrder::Equal),
        (DeletePos::AfterTail, _) => Ok(PosOrder::Greater),
        (_, DeletePos::AfterTail) => Ok(PosOrder::Less),
        (DeletePos::InRow { row_id: r1, k: k1 }, DeletePos::InRow { row_id: r2, k: k2 }) => {
            if r1 == r2 {
                if k1 < k2 {
                    Ok(PosOrder::Less)
                } else if k1 == k2 {
                    Ok(PosOrder::Equal)
                } else {
                    Ok(PosOrder::Greater)
                }
            } else if chain_walk_lt(store, r1, r2)? {
                Ok(PosOrder::Less)
            } else {
                Ok(PosOrder::Greater)
            }
        },
    }
}

// ---------- splices ----------

/// The first `k` bytes of a range.
pub open spec fn left_part(coord: PieceCoord, k: u32, tombstone: bool) -> PieceCoord {
    PieceCoord { len_bytes: k, tombstone, ..coord }
}

/// The range without its first `k` bytes.
pub open spec fn right_part(coord: PieceCoord, k: u32, tombstone: bool) -> PieceCoord {
    PieceCoord {
        start_byte: (coord.start_byte + k) as u32,
        len_bytes: (coord.len_bytes - k) as u32,
        tombstone,
        ..coord
    }
}

/// Makes `row_id` the row before `next_id`, or the tail if there is no such row.
pub open spec fn relink_next<E>(doc: Doc<E>, next_id: i64, row_id: i64) -> (Doc<E>, Result<(), EditError<E>>) {
    if next_id == 0 {
        (doc.set_tail(row_id), Ok(()))
    } else {
        doc.set_prev(next_id, row_id)
    }
}

/// Shortens a row and hangs what follows it on a new successor.
pub open spec fn shorten_and_link<E>(
    doc: Doc<E>,
    row: PieceRow,
    left: PieceCoord,
    successor: i64,
    last_new: i64,
) -> (Doc<E>, Result<(), EditError<E>>) {
    let (d1, r1) = doc.set_coord(row.id, left);
    match r1 {
        Err(e) => (d1, Err(e)),
        Ok(_) => {
            let (d2, r2) = d1.set_next(row.id, successor);
            match r2 {
                Err(e) => (d2, Err(e)),
                Ok(_) => relink_next(d2, row.next_id, last_new),
            }
        },
    }
}

/// Cuts a row in two after `k` bytes. The row keeps the left part, a new row
/// takes the right one.
pub open spec fn cut_row<E>(
    doc: Doc<E>,
    row: PieceRow,
    k: u32,
    left_tombstone: bool,
    right_tombstone: bool,
) -> (Doc<E>, Result<(), EditError<E>>) {
    let (d1, r1) = step_forward(doc, row);
    match r1 {
        Err(e) => (d1, Err(e)),
        Ok(_) => {
            let (d2, r2) = d1.alloc_piece_id();
            match r2 {
                Err(e) => (d2, Err(e)),
                Ok(m_id) => {
                    let (d3, r3) = d2.insert_new_row(
                        m_id,
                        row.id,
                        row.next_id,
                        right_part(row.coord, k, right_tombstone),
                    );
                    match r3 {
                        Err(e) => (d3, Err(e)),
                        Ok(_) => shorten_and_link(
                            d3,
                            row,
                            left_part(row.coord, k, left_tombstone),
                            m_id,
                            m_id,
                        ),
                    }
                },
            }
        },
    }
}

/// Parts a row into its first `k1` bytes and what follows its first `k2` bytes,
/// with `middle` as a new row between the two.
pub open spec fn split_row<E>(doc: Doc<E>, row: PieceRow, k1: u32, k2: u32, middle: PieceCoord) -> (
    Doc<E>,
    Result<(), EditError<E>>,
) {
    let (d1, r1) = step_forward(doc, row);
    match r1 {
        Err(e) => (d1, Err(e)),
        Ok(_) => {
            let (d2, r2) = d1.alloc_piece_id();
            match r2 {
                Err(e) => (d2, Err(e)),
                Ok(m_id) => {
                    let (d3, r3) = d2.alloc_piece_id();
                    match r3 {
                        Err(e) => (d3, Err(e)),
                        Ok(r_id) => {
                            let (d4, r4) = d3.insert_new_row(m_id, row.id, r_id, middle);
                            match r4 {
                                Err(e) => (d4, Err(e)),
                                Ok(_) => {
                                    let (d5, r5) = d4.insert_new_row(
                                        r_id,
                                        m_id,
                                        row.next_id,
                                        right_part(row.coord, k2, row.coord.tombstone),
                                    );
                                    match r5 {
                                        Err(e) => (d5, Err(e)),
                                        Ok(_) => shorten_and_link(
                                            d5,
                                            row,
                                            left_part(row.coord, k1, row.coord.tombstone),
                                            m_id,
                                            r_id,
                                        ),
                                    }
                                },
                            }
                        },
                    }
                },
            }
        },
    }
}

/// Puts a new row in front of all others.
pub open spec fn insert_at_head<E>(doc: Doc<E>, coord: PieceCoord) -> (Doc<E>, Result<(), EditError<E>>) {
    let old_head = doc.head_id();
    let (d1, r1) = doc.alloc_piece_id();
    match r1 {
        Err(e) => (d1, Err(e)),
        Ok(new_id) => if old_head == 0 {
            let (d2, r2) = d1.insert_new_row(new_id, 0, 0, coord);
            match r2 {
                Err(e) => (d2, Err(e)),
                Ok(_) => (new_head(d2, new_id), Ok(())),
            }
        } else {
            let (d2, r2) = d1.read(old_head);
            match r2 {
                Err(e) => (d2, Err(e)),
                Ok(head) => if head.prev_id != 0 {
                    (
                        d2,
                        Err(
                            EditError::Fault(
                                EditFault::HeadHasPrev { row_id: old_head, prev_id: head.prev_id },
                            ),
                        ),
                    )
                } else {
                    let (d3, r3) = d2.insert_new_row(new_id, 0, old_head, coord);
                    match r3 {
                        Err(e) => (d3, Err(e)),
                        Ok(_) => {
                            let (d4, r4) = d3.set_prev(old_head, new_id);
                            match r4 {
                                Err(e) => (d4, Err(e)),
                                Ok(_) => (new_head(d4, new_id), Ok(())),
                            }
                        },
                    }
                },
            }
        },
    }
}

/// Makes a row the head, and the tail too if there is none.
pub open spec fn new_head<E>(doc: Doc<E>, row_id: i64) -> Doc<E> {
    let d = doc.set_head(row_id);
    if d.tail_id() == 0 {
        d.set_tail(row_id)
    } else {
        d
    }
}

/// Puts a new row behind a row.
pub open spec fn insert_after<E>(doc: Doc<E>, anchor_id: i64, coord: PieceCoord) -> (
    Doc<E>,
    Result<(), EditError<E>>,
) {
    let (d1, r1) = doc.read(anchor_id);
    match r1 {
        Err(e) => (d1, Err(e)),
        Ok(anchor) => {
            let (d2, r2) = step_forward(d1, anchor);
            match r2 {
                Err(e) => (d2, Err(e)),
                Ok(_) => {
                    let (d3, r3) = d2.alloc_piece_id();
                    match r3 {
                        Err(e) => (d3, Err(e)),
                        Ok(new_id) => {
                            let (d4, r4) = d3.insert_new_row(new_id, anchor_id, anchor.next_id, coord);
                            match r4 {
                                Err(e) => (d4, Err(e)),
                                Ok(_) => {
                                    let (d5, r5) = d4.set_next(anchor_id, new_id);
                                    match r5 {
                                        Err(e) => (d5, Err(e)),
                                        Ok(_) => relink_next(d5, anchor.next_id, new_id),
                                    }
                                },
                            }
                        },
                    }
                },
            }
        },
    }
}

/// Where an inserted piece goes.
#[derive(Clone, Copy, Debug, PartialEq, Eq, Structural)]
pub enum InsertSplice {
    AtHead,
    AfterRow { id: i64 },
    SplitRow { row: PieceRow, k: u32 },
}

pub open spec fn insert_splice<E>(doc: Doc<E>, found: ResolveMatch, at: BufferCoord) -> (
    Doc<E>,
    Result<InsertSplice, EditError<E>>,
) {
    match found {
        ResolveMatch::BeforeHead => (doc, Ok(InsertSplice::AtHead)),
        ResolveMatch::BeforeHeadClamped => (doc, Ok(InsertSplice::AtHead)),
        ResolveMatch::AfterTailClamped => (
            doc,
            Err(EditError::Fault(EditFault::InsertClampedForward { at })),
        ),
        ResolveMatch::AfterClamp { row_id } => (doc, Ok(InsertSplice::AfterRow { id: row_id })),
        ResolveMatch::InRow { row, k } => if k == row.coord.len_bytes {
            (doc, Ok(InsertSplice::AfterRow { id: row.id }))
        } else if k == 0 {
            let (d, r) = step_backward(doc, row);
            (
                d,
                match r {
                    Err(e) => Err(e),
                    Ok(None) => Ok(InsertSplice::AtHead),
                    Ok(Some(_)) => Ok(InsertSplice::AfterRow { id: row.prev_id }),
                },
            )
        } else {
            (doc, Ok(InsertSplice::SplitRow { row, k }))
        },
    }
}

/// Inserts a piece at a coordinate.
pub open spec fn insert_piece<E>(doc: Doc<E>, at: BufferCoord, coord: PieceCoord) -> (
    Doc<E>,
    Result<(), EditError<E>>,
) {
    let (d1, r1) = resolve_coord(doc, at, ResolvePurpose::InsertAnchor);
    match r1 {
        Err(e) => (d1, Err(e)),
        Ok(found) => {
            let (d2, r2) = insert_splice(d1, found, at);
            match r2 {
                Err(e) => (d2, Err(e)),
                Ok(InsertSplice::AtHead) => insert_at_head(d2, coord),
                Ok(InsertSplice::AfterRow { id }) => insert_after(d2, id, coord),
                Ok(InsertSplice::SplitRow { row, k }) => split_row(d2, row, k, k, coord),
            }
        },
    }
}

proof fn lemma_with_row_fits<E>(doc: Doc<E>, row: PieceRow)
    requires
        doc.ranges_fit(),
        row.coord.end() <= u32::MAX,
    ensures
        doc.with_row(row).ranges_fit(),
{
    assert forall|id: i64| (#[trigger] doc.with_row(row).at(id)) is Ok implies doc.with_row(row).at(
        id,
    )->Ok_0.coord.end() <= u32::MAX by {
        if id != row.id {
            assert(doc.with_row(row).at(id) == doc.at(id));
        }
    }
}

/// Changes of rows whose new ranges fit leave all ranges fitting.
proof fn lemma_writes_fit<E>(doc: Doc<E>)
    requires
        doc.ranges_fit(),
    ensures
        forall|id: i64| #[trigger] doc.after_read(id).ranges_fit(),
        forall|id: i64, p: i64| (#[trigger] doc.set_prev(id, p)).0.ranges_fit(),
        forall|id: i64, n: i64| (#[trigger] doc.set_next(id, n)).0.ranges_fit(),
        forall|id: i64, c: PieceCoord|
            c.end() <= u32::MAX ==> (#[trigger] doc.set_coord(id, c)).0.ranges_fit(),
        forall|id: i64, p: i64, n: i64, c: PieceCoord|
            c.end() <= u32::MAX ==> (#[trigger] doc.insert_new_row(id, p, n, c)).0.ranges_fit(),
        doc.alloc_piece_id().0.ranges_fit(),
        forall|id: i64| (#[trigger] doc.set_head(id)).ranges_fit(),
        forall|id: i64| (#[trigger] doc.set_tail(id)).ranges_fit(),
{
    assert forall|id: i64| #[trigger] doc.after_read(id).ranges_fit() by {
        lemma_same_rows_fit(doc, doc.after_read(id));
    }
    assert forall|id: i64, p: i64| (#[trigger] doc.set_prev(id, p)).0.ranges_fit() by {
        lemma_same_rows_fit(doc, doc.after_read(id));
        if let Ok(row) = doc.at(id) {
            lemma_with_row_fits(doc.after_read(id), PieceRow { prev_id: p, ..row });
        }
    }
    assert forall|id: i64, n: i64| (#[trigger] doc.set_next(id, n)).0.ranges_fit() by {
        lemma_same_rows_fit(doc, doc.after_read(id));
        if let Ok(row) = doc.at(id) {
            lemma_with_row_fits(doc.after_read(id), PieceRow { next_id: n, ..row });
        }
    }
    assert forall|id: i64, c: PieceCoord| c.end() <= u32::MAX implies (#[trigger] doc.set_coord(
        id,
        c,
    )).0.ranges_fit() by {
        lemma_same_rows_fit(doc, doc.after_read(id));
        if let Ok(row) = doc.at(id) {
            lemma_with_row_fits(doc.after_read(id), PieceRow { coord: c, ..row });
        }
    }
    assert forall|id: i64, p: i64, n: i64, c: PieceCoord| c.end() <= u32::MAX implies (
    #[trigger] doc.insert_new_row(id, p, n, c)).0.ranges_fit() by {
        let row = PieceRow { id, list_number: doc.list_number, prev_id: p, next_id: n, coord: c };
        lemma_with_row_fits(doc, row);
        lemma_same_rows_fit(doc.with_row(row), doc.insert_new_row(id, p, n, c).0);
    }
    lemma_same_rows_fit(doc, doc.alloc_piece_id().0);
    assert forall|id: i64| (#[trigger] doc.set_head(id)).ranges_fit() by {
        lemma_same_rows_fit(doc, doc.set_head(id));
    }
    assert forall|id: i64| (#[trigger] doc.set_tail(id)).ranges_fit() by {
        lemma_same_rows_fit(doc, doc.set_tail(id));
    }
}

proof fn lemma_same_rows_fit<E>(before: Doc<E>, after: Doc<E>)
    ensures
        before.ranges_fit() && before.row == after.row ==> after.ranges_fit(),
{
    if before.ranges_fit() && before.row == after.row {
        assert forall|id: i64| (#[trigger] after.at(id)) is Ok implies after.at(id)->Ok_0.coord.end()
            <= u32::MAX by {
            assert(before.at(id) == after.at(id));
        }
    }
}

// ---------- what reading leaves alone ----------

/// A row as the document holds it, and read before.
pub open spec fn known_row<E>(doc: Doc<E>, row: PieceRow) -> bool {
    doc.at(row.id) == Ok::<PieceRow, E>(row) && doc.loaded.contains(row.id)
}

/// All rows that the document has of the buffer were read.
pub open spec fn has_read_all<E>(doc: Doc<E>, after: Doc<E>, buffer_id: i64) -> bool {
    (doc.candidates)(buffer_id) matches Ok(ids) && forall|i: int|
        0 <= i < ids.len() ==> after.loaded.contains(#[trigger] ids[i])
}

proof fn lemma_candidates_only_read<E>(doc: Doc<E>, buffer_id: i64, ids: Seq<i64>)
    requires
        doc.ids_match(),
    ensures
        ({
            let (d, r) = read_candidates(doc, buffer_id, ids);
            &&& only_read(doc, d)
            &&& r matches Ok(rows) ==> {
                &&& rows.len() == ids.len()
                &&& forall|i: int|
                    0 <= i < rows.len() ==> known_row(d, #[trigger] rows[i])
                        && rows[i].coord.end() <= u32::MAX && rows[i].coord.len_bytes > 0
                        && rows[i].id == ids[i] && rows[i].list_number == doc.list_number
            }
        }),
    decreases ids.len(),
{
    if ids.len() > 0 {
        lemma_candidates_only_read(doc, buffer_id, ids.drop_last());
        let (d1, r1) = read_candidates(doc, buffer_id, ids.drop_last());
        if let Ok(rows) = r1 {
            assert(d1.at(ids.last()) == doc.at(ids.last()));
            let d = read_candidates(doc, buffer_id, ids).0;
            assert forall|i: int| 0 <= i < rows.len() implies known_row(d, #[trigger] rows[i]) by {
                assert(known_row(d1, rows[i]));
            }
        }
    }
}

proof fn lemma_clamp_only_reads<E>(
    doc: Doc<E>,
    start_row_id: i64,
    current: PieceRow,
    direction: ClampDirection,
    hops: u32,
)
    requires
        doc.ids_match(),
        known_row(doc, current),
    ensures
        ({
            let (d, r) = clamp_walk(doc, start_row_id, current, direction, hops);
            &&& only_read(doc, d)
            &&& r matches Ok(ResolveCoreResult::ClampedToRow { row, .. }) ==> known_row(d, row)
                && !row.coord.tombstone
            &&& !(r matches Ok(ResolveCoreResult::InRow { .. }))
        }),
    decreases u32::MAX - hops,
{
    let id = neighbour(current, direction);
    if current.coord.tombstone && hops < u32::MAX && id != 0 {
        let (d, r) = doc.read(id);
        if let Ok(next) = r {
            assert(d.ids_match()) by {
                assert forall|i: i64| (#[trigger] d.at(i)) is Ok implies d.at(i)->Ok_0.id == i by {
                    assert(d.at(i) == doc.at(i));
                }
            }
            assert(known_row(d, next));
            lemma_clamp_only_reads(d, start_row_id, next, direction, (hops + 1) as u32);
        }
    }
}

/// Resolving a coordinate reads and changes nothing. The row found is in the
/// document, and the position lies in it.
pub proof fn lemma_resolve_only_reads<E>(doc: Doc<E>, coord: BufferCoord, purpose: ResolvePurpose)
    requires
        doc.ids_match(),
    ensures
        ({
            let (d, r) = resolve_coord(doc, coord, purpose);
            &&& only_read(doc, d)
            &&& r matches Ok(ResolveMatch::InRow { row, k }) ==> known_row(d, row) && k
                <= row.coord.len_bytes && row.coord.end() <= u32::MAX && !row.coord.tombstone
            &&& r matches Ok(ResolveMatch::AfterClamp { row_id }) ==> doc.at(row_id) is Ok
                && !doc.at(row_id)->Ok_0.coord.tombstone && d.loaded.contains(row_id)
        }),
{
    if coord != BufferCoord::document_start() && coord.buffer_id > 0 {
        if let Ok(ids) = (doc.candidates)(coord.buffer_id) {
            let d0 = doc.after_lookup(coord.buffer_id);
            assert(d0.ids_match()) by {
                assert forall|i: i64| (#[trigger] d0.at(i)) is Ok implies d0.at(i)->Ok_0.id == i by {
                    assert(d0.at(i) == doc.at(i));
                }
            }
            lemma_candidates_only_read(d0, coord.buffer_id, ids);
            let (d1, r1) = read_candidates(d0, coord.buffer_id, ids);
            if let Ok(rows) = r1 {
                lemma_matched_row(rows, coord.byte_pos);
                if let Some(row) = matched_row(rows, coord.byte_pos) {
                    assert(known_row(d1, row));
                    assert(d1.ids_match()) by {
                        assert forall|i: i64| (#[trigger] d1.at(i)) is Ok implies d1.at(i)->Ok_0.id
                            == i by {
                            assert(d1.at(i) == d0.at(i));
                        }
                    }
                    if row.coord.tombstone {
                        lemma_clamp_only_reads(d1, row.id, row, purpose.clamp_direction(), 0);
                    }
                    let (d2, r2) = resolve_among(d1, coord, purpose, rows);
                    assert(only_read(doc, d2));
                }
            }
        }
    }
}

/// Resolving a coordinate reads all rows of its buffer.
pub proof fn lemma_resolve_reads_all<E>(doc: Doc<E>, coord: BufferCoord, purpose: ResolvePurpose)
    requires
        doc.ids_match(),
        coord.buffer_id > 0,
        resolve_coord(doc, coord, purpose).1 is Ok,
    ensures
        has_read_all(doc, resolve_coord(doc, coord, purpose).0, coord.buffer_id),
{
    let ids = (doc.candidates)(coord.buffer_id)->Ok_0;
    let d0 = doc.after_lookup(coord.buffer_id);
    lemma_keeps_ids(doc, d0);
    lemma_candidates_only_read(d0, coord.buffer_id, ids);
    let (d1, r1) = read_candidates(d0, coord.buffer_id, ids);
    let rows = r1->Ok_0;
    lemma_matched_row(rows, coord.byte_pos);
    let row = matched_row(rows, coord.byte_pos)->Some_0;
    assert(known_row(d1, row));
    lemma_keeps_ids(d0, d1);
    if row.coord.tombstone {
        lemma_clamp_only_reads(d1, row.id, row, purpose.clamp_direction(), 0);
    }
    let d = resolve_coord(doc, coord, purpose).0;
    assert forall|i: int| 0 <= i < ids.len() implies d.loaded.contains(#[trigger] ids[i]) by {
        assert(known_row(d1, rows[i]));
        assert(d1.loaded.contains(ids[i]));
    }
}

pub proof fn lemma_live_before_only_reads<E>(doc: Doc<E>, row: PieceRow, hops: int, cap: int, kind: WalkKind)
    requires
        doc.ids_match(),
    ensures
        ({
            let (d, r) = live_before(doc, row, hops, cap, kind);
            &&& only_read(doc, d)
            &&& r matches Ok(Some(prev)) ==> known_row(d, prev) && !prev.coord.tombstone
        }),
    decreases cap - hops,
{
    let (d, r) = step_backward(doc, row);
    if let Ok(Some(prev)) = r {
        assert(known_row(d, prev));
        if prev.coord.tombstone && hops + 1 <= cap {
            assert(d.ids_match()) by {
                assert forall|i: i64| (#[trigger] d.at(i)) is Ok implies d.at(i)->Ok_0.id == i by {
                    assert(d.at(i) == doc.at(i));
                }
            }
            lemma_live_before_only_reads(d, prev, hops + 1, cap, kind);
        }
    }
}

pub proof fn lemma_live_after_only_reads<E>(doc: Doc<E>, row: PieceRow, hops: int, cap: int, kind: WalkKind)
    requires
        doc.ids_match(),
    ensures
        ({
            let (d, r) = live_after(doc, row, hops, cap, kind);
            &&& only_read(doc, d)
            &&& r matches Ok(Some(next)) ==> known_row(d, next) && !next.coord.tombstone
        }),
    decreases cap - hops,
{
    let (d, r) = step_forward(doc, row);
    if let Ok(Some(next)) = r {
        assert(known_row(d, next));
        if next.coord.tombstone && hops + 1 <= cap {
            assert(d.ids_match()) by {
                assert forall|i: i64| (#[trigger] d.at(i)) is Ok implies d.at(i)->Ok_0.id == i by {
                    assert(d.at(i) == doc.at(i));
                }
            }
            lemma_live_after_only_reads(d, next, hops + 1, cap, kind);
        }
    }
}

proof fn lemma_live_from_head_only_reads<E>(doc: Doc<E>, row: PieceRow, hops: int, cap: int)
    requires
        doc.ids_match(),
        known_row(doc, row),
    ensures
        ({
            let (d, r) = live_from_head(doc, row, hops, cap);
            &&& only_read(doc, d)
            &&& r matches Ok(Some(id)) ==> d.at(id) is Ok && d.loaded.contains(id)
        }),
    decreases cap - hops,
{
    if row.coord.tombstone {
        let (d, r) = step_forward(doc, row);
        if let Ok(Some(next)) = r {
            if hops + 1 <= cap {
                assert(d.ids_match()) by {
                    assert forall|i: i64| (#[trigger] d.at(i)) is Ok implies d.at(i)->Ok_0.id == i by {
                        assert(d.at(i) == doc.at(i));
                    }
                }
                assert(known_row(d, next));
                lemma_live_from_head_only_reads(d, next, hops + 1, cap);
            }
        }
    }
}

proof fn lemma_live_from_tail_only_reads<E>(doc: Doc<E>, row: PieceRow, hops: int, cap: int)
    requires
        doc.ids_match(),
        known_row(doc, row),
    ensures
        ({
            let (d, r) = live_from_tail(doc, row, hops, cap);
            &&& only_read(doc, d)
            &&& r matches Ok(Some(id)) ==> d.at(id) is Ok && d.loaded.contains(id)
        }),
    decreases cap - hops,
{
    if row.coord.tombstone {
        let (d, r) = step_backward(doc, row);
        if let Ok(Some(next)) = r {
            if hops + 1 <= cap {
                assert(d.ids_match()) by {
                    assert forall|i: i64| (#[trigger] d.at(i)) is Ok implies d.at(i)->Ok_0.id == i by {
                        assert(d.at(i) == doc.at(i));
                    }
                }
                assert(known_row(d, next));
                lemma_live_from_tail_only_reads(d, next, hops + 1, cap);
            }
        }
    }
}

pub proof fn lemma_ends_only_read<E>(doc: Doc<E>)
    requires
        doc.ids_match(),
    ensures
        only_read(doc, first_live_row(doc).0),
        first_live_row(doc).1 matches Ok(Some(id)) ==> doc.at(id) is Ok && first_live_row(
            doc,
        ).0.loaded.contains(id),
        only_read(doc, last_live_row(doc).0),
        last_live_row(doc).1 matches Ok(Some(id)) ==> doc.at(id) is Ok && last_live_row(
            doc,
        ).0.loaded.contains(id),
{
    lemma_read_keeps_ids(doc, doc.head_id());
    lemma_read_keeps_ids(doc, doc.tail_id());
    let (d1, r1) = doc.read(doc.head_id());
    if let Ok(row) = r1 {
        lemma_live_from_head_only_reads(d1, row, 0, doc.next_piece_id as int);
    }
    let (d2, r2) = doc.read(doc.tail_id());
    if let Ok(row) = r2 {
        lemma_live_from_tail_only_reads(d2, row, 0, doc.next_piece_id as int);
    }
}

pub proof fn lemma_read_keeps_ids<E>(doc: Doc<E>, id: i64)
    requires
        doc.ids_match(),
    ensures
        doc.after_read(id).ids_match(),
{
    assert forall|i: i64| (#[trigger] doc.after_read(id).at(i)) is Ok implies doc.after_read(id).at(
        i,
    )->Ok_0.id == i by {
        assert(doc.after_read(id).at(i) == doc.at(i));
    }
}

proof fn lemma_reaches_only_reads<E>(doc: Doc<E>, row: PieceRow, b_id: i64, hops: int, cap: int)
    ensures
        only_read(doc, reaches(doc, row, b_id, hops, cap).0),
    decreases cap - hops,
{
    let (d, r) = step_forward(doc, row);
    if let Ok(Some(next)) = r {
        if next.id != b_id && hops + 1 <= cap {
            lemma_reaches_only_reads(d, next, b_id, hops + 1, cap);
        }
    }
}

/// A position that lies in a row of the document.
pub open spec fn pos_in_doc<E>(doc: Doc<E>, pos: DeletePos) -> bool {
    pos matches DeletePos::InRow { row_id, k } ==> doc.loaded.contains(row_id) && doc.at(row_id) is Ok
        && k <= doc.at(row_id)->Ok_0.coord.len_bytes
}

proof fn lemma_canonical_only_reads<E>(doc: Doc<E>, row_id: i64, k: u32)
    requires
        doc.ids_match(),
        doc.at(row_id) matches Ok(row) ==> k <= row.coord.len_bytes,
    ensures
        ({
            let (d, r) = canonical_pos(doc, row_id, k);
            only_read(doc, d) && (r matches Ok(pos) ==> pos_in_doc(d, pos))
        }),
{
    let (d, r) = doc.read(row_id);
    lemma_read_keeps_ids(doc, row_id);
    if let Ok(row) = r {
        lemma_live_before_only_reads(d, row, 0, doc.next_piece_id as int, WalkKind::Canonical);
        lemma_live_after_only_reads(d, row, 0, doc.next_piece_id as int, WalkKind::Canonical);
    }
}

pub proof fn lemma_keeps_ids<E>(before: Doc<E>, after: Doc<E>)
    requires
        before.ids_match(),
        before.row == after.row,
    ensures
        after.ids_match(),
{
    assert forall|i: i64| (#[trigger] after.at(i)) is Ok implies after.at(i)->Ok_0.id == i by {
        assert(after.at(i) == before.at(i));
    }
}

pub proof fn lemma_delete_ends_only_read<E>(doc: Doc<E>, coord: BufferCoord)
    requires
        doc.ids_match(),
    ensures
        only_read(doc, delete_start(doc, coord).0),
        delete_start(doc, coord).1 matches Ok(pos) ==> pos_in_doc(delete_start(doc, coord).0, pos),
        only_read(doc, delete_end(doc, coord).0),
        delete_end(doc, coord).1 matches Ok(pos) ==> pos_in_doc(delete_end(doc, coord).0, pos),
{
    lemma_resolve_only_reads(doc, coord, ResolvePurpose::DeleteStart);
    lemma_resolve_only_reads(doc, coord, ResolvePurpose::DeleteEnd);
    let (d1, r1) = resolve_coord(doc, coord, ResolvePurpose::DeleteStart);
    let (d2, r2) = resolve_coord(doc, coord, ResolvePurpose::DeleteEnd);
    lemma_keeps_ids(doc, d1);
    lemma_keeps_ids(doc, d2);
    if let Ok(ResolveMatch::AfterClamp { row_id }) = r1 {
        lemma_canonical_only_reads(d1, row_id, 0);
    }
    if let Ok(ResolveMatch::InRow { row, k }) = r1 {
        lemma_canonical_only_reads(d1, row.id, k);
    }
    if let Ok(ResolveMatch::AfterClamp { row_id }) = r2 {
        lemma_read_keeps_ids(d2, row_id);
        let (d3, r3) = d2.read(row_id);
        if let Ok(row) = r3 {
            lemma_canonical_only_reads(d3, row_id, row.coord.len_bytes);
        }
    }
    if let Ok(ResolveMatch::InRow { row, k }) = r2 {
        lemma_canonical_only_reads(d2, row.id, k);
    }
}

/// Finding where a deletion starts or ends reads all rows of the coordinate's buffer.
pub proof fn lemma_delete_ends_read_all<E>(doc: Doc<E>, coord: BufferCoord)
    requires
        doc.ids_match(),
        coord.buffer_id > 0,
    ensures
        delete_start(doc, coord).1 is Ok ==> has_read_all(doc, delete_start(doc, coord).0, coord.buffer_id),
        delete_end(doc, coord).1 is Ok ==> has_read_all(doc, delete_end(doc, coord).0, coord.buffer_id),
{
    lemma_resolve_only_reads(doc, coord, ResolvePurpose::DeleteStart);
    lemma_resolve_only_reads(doc, coord, ResolvePurpose::DeleteEnd);
    let (d1, r1) = resolve_coord(doc, coord, ResolvePurpose::DeleteStart);
    let (d2, r2) = resolve_coord(doc, coord, ResolvePurpose::DeleteEnd);
    lemma_keeps_ids(doc, d1);
    lemma_keeps_ids(doc, d2);
    if r1 is Ok {
        lemma_resolve_reads_all(doc, coord, ResolvePurpose::DeleteStart);
    }
    if r2 is Ok {
        lemma_resolve_reads_all(doc, coord, ResolvePurpose::DeleteEnd);
    }
    if let Ok(ResolveMatch::AfterClamp { row_id }) = r1 {
        lemma_canonical_only_reads(d1, row_id, 0);
    }
    if let Ok(ResolveMatch::InRow { row, k }) = r1 {
        lemma_canonical_only_reads(d1, row.id, k);
    }
    if let Ok(ResolveMatch::AfterClamp { row_id }) = r2 {
        lemma_read_keeps_ids(d2, row_id);
        let (d3, r3) = d2.read(row_id);
        if let Ok(row) = r3 {
            lemma_canonical_only_reads(d3, row_id, row.coord.len_bytes);
        }
    }
    if let Ok(ResolveMatch::InRow { row, k }) = r2 {
        lemma_canonical_only_reads(d2, row.id, k);
    }
}

pub proof fn lemma_order_only_reads<E>(doc: Doc<E>, a: DeletePos, b: DeletePos)
    requires
        doc.ids_match(),
    ensures
        only_read(doc, position_order(doc, a, b).0),
{
    lemma_ends_only_read(doc);
    if let (DeletePos::InRow { row_id: r1, .. }, DeletePos::InRow { row_id: r2, .. }) = (a, b) {
        let (d, r) = doc.read(r1);
        if let Ok(row) = r {
            lemma_reaches_only_reads(d, row, r2, 0, doc.next_piece_id as int);
        }
    }
}

// ---------- doing it ----------

fn do_relink_next<S: PieceStore>(store: &mut S, next_id: i64, row_id: i64) -> (r: Result<
    (),
    EditError<S::Error>,
>)
    requires
        old(store).wf(),
    ensures
        final(store).wf(),
        final(store).rest() == old(store).rest(),
        *final(final(store).tree()) == *final(old(store).tree()),
        (final(store).doc(), r) == relink_next(old(store).doc(), next_id, row_id),
        old(store).doc().ranges_fit() ==> final(store).doc().ranges_fit(),
{
    proof {
        if store.doc().ranges_fit() {
            lemma_writes_fit(store.doc());
        }
    }
    if next_id == 0 {
        store.store_set_tail(row_id);
        Ok(())
    } else {
        store.store_set_prev(next_id, row_id)
    }
}

fn do_shorten_and_link<S: PieceStore>(
    store: &mut S,
    row: &PieceRow,
    left: PieceCoord,
    successor: i64,
    last_new: i64,
) -> (r: Result<(), EditError<S::Error>>)
    requires
        old(store).wf(),
        left.end() <= u32::MAX,
    ensures
        final(store).wf(),
        final(store).rest() == old(store).rest(),
        *final(final(store).tree()) == *final(old(store).tree()),
        (final(store).doc(), r) == shorten_and_link(old(store).doc(), *row, left, successor, last_new),
        old(store).doc().ranges_fit() ==> final(store).doc().ranges_fit(),
{
    let ghost d0 = store.doc();
    proof {
        if d0.ranges_fit() {
            lemma_writes_fit(d0);
        }
    }
    store.store_set_coord(row.id, left)?;
    let ghost d1 = store.doc();
    proof {
        if d1.ranges_fit() {
            lemma_writes_fit(d1);
        }
    }
    store.store_set_next(row.id, successor)?;
    do_relink_next(store, row.next_id, last_new)
}

/// Cuts a row in two after `k` bytes.
fn do_cut_row<S: PieceStore>(
    store: &mut S,
    row: &PieceRow,
    k: u32,
    left_tombstone: bool,
    right_tombstone: bool,
) -> (r: Result<(), EditError<S::Error>>)
    requires
        old(store).wf(),
        k <= row.coord.len_bytes,
        row.coord.end() <= u32::MAX,
    ensures
        final(store).wf(),
        final(store).rest() == old(store).rest(),
        *final(final(store).tree()) == *final(old(store).tree()),
        (final(store).doc(), r) == cut_row(
            old(store).doc(),
            *row,
            k,
            left_tombstone,
            right_tombstone,
        ),
        old(store).doc().ranges_fit() ==> final(store).doc().ranges_fit(),
{
    let ghost d0 = store.doc();
    proof {
        if d0.ranges_fit() {
            lemma_writes_fit(d0);
        }
    }
    do_step_forward(store, row)?;
    let ghost d1 = store.doc();
    proof {
        if d1.ranges_fit() {
            lemma_writes_fit(d1);
        }
    }
    let m_id: i64 = store.store_alloc_piece_id()?;
    let ghost d2 = store.doc();
    proof {
        if d2.ranges_fit() {
            lemma_writes_fit(d2);
        }
    }
    let right = PieceCoord {
        buffer_id: row.coord.buffer_id,
        start_byte: row.coord.start_byte + k,
        len_bytes: row.coord.len_bytes - k,
        tombstone: right_tombstone,
    };
    store.store_insert_row(m_id, row.id, row.next_id, right)?;
    let left = PieceCoord {
        buffer_id: row.coord.buffer_id,
        start_byte: row.coord.start_byte,
        len_bytes: k,
        tombstone: left_tombstone,
    };
    do_shorten_and_link(store, row, left, m_id, m_id)
}

/// Parts a row around a new one.
fn do_split_row<S: PieceStore>(store: &mut S, row: &PieceRow, k1: u32, k2: u32, middle: PieceCoord) -> (r:
    Result<(), EditError<S::Error>>)
    requires
        old(store).wf(),
        k1 <= k2 <= row.coord.len_bytes,
        row.coord.end() <= u32::MAX,
        middle.end() <= u32::MAX,
    ensures
        final(store).wf(),
        final(store).rest() == old(store).rest(),
        *final(final(store).tree()) == *final(old(store).tree()),
        (final(store).doc(), r) == split_row(old(store).doc(), *row, k1, k2, middle),
        old(store).doc().ranges_fit() ==> final(store).doc().ranges_fit(),
{
    let ghost d0 = store.doc();
    proof {
        if d0.ranges_fit() {
            lemma_writes_fit(d0);
        }
    }
    do_step_forward(store, row)?;
    let ghost d1 = store.doc();
    proof {
        if d1.ranges_fit() {
            lemma_writes_fit(d1);
        }
    }
    let m_id: i64 = store.store_alloc_piece_id()?;
    let ghost d2 = store.doc();
    proof {
        if d2.ranges_fit() {
            lemma_writes_fit(d2);
        }
    }
    let r_id: i64 = store.store_alloc_piece_id()?;
    let ghost d3 = store.doc();
    proof {
        if d3.ranges_fit() {
            lemma_writes_fit(d3);
        }
    }
    store.store_insert_row(m_id, row.id, r_id, middle)?;
    let ghost d4 = store.doc();
    proof {
        if d4.ranges_fit() {
            lemma_writes_fit(d4);
        }
    }
    let right = PieceCoord {
        buffer_id: row.coord.buffer_id,
        start_byte: row.coord.start_byte + k2,
        len_bytes: row.coord.len_bytes - k2,
        tombstone: row.coord.tombstone,
    };
    store.store_insert_row(r_id, m_id, row.next_id, right)?;
    let left = PieceCoord {
        buffer_id: row.coord.buffer_id,
        start_byte: row.coord.start_byte,
        len_bytes: k1,
        tombstone: row.coord.tombstone,
    };
    do_shorten_and_link(store, row, left, m_id, r_id)
}

fn do_insert_at_head<S: PieceStore>(store: &mut S, coord: PieceCoord) -> (r: Result<
    (),
    EditError<S::Error>,
>)
    requires
        old(store).wf(),
        coord.end() <= u32::MAX,
    ensures
        final(store).wf(),
        final(store).rest() == old(store).rest(),
        *final(final(store).tree()) == *final(old(store).tree()),
        (final(store).doc(), r) == insert_at_head(old(store).doc(), coord),
        old(store).doc().ranges_fit() ==> final(store).doc().ranges_fit(),
{
    let ghost d0 = store.doc();
    proof {
        if d0.ranges_fit() {
            lemma_writes_fit(d0);
        }
    }
    let old_head: i64 = store.store_head();
    let new_id: i64 = store.store_alloc_piece_id()?;
    let ghost d1 = store.doc();
    proof {
        if d1.ranges_fit() {
            lemma_writes_fit(d1);
        }
    }
    if old_head != 0 {
        let head = read(store, old_head)?;
        if head.prev_id != 0 {
            return Err(
                EditError::Fault(EditFault::HeadHasPrev { row_id: old_head, prev_id: head.prev_id }),
            );
        }
    }
    let ghost d2 = store.doc();
    proof {
        if d2.ranges_fit() {
            lemma_writes_fit(d2);
        }
    }
    store.store_insert_row(new_id, 0, old_head, coord)?;
    let ghost d3 = store.doc();
    proof {
        if d3.ranges_fit() {
            lemma_writes_fit(d3);
        }
    }
    if old_head != 0 {
        store.store_set_prev(old_head, new_id)?;
    }
    let ghost d4 = store.doc();
    proof {
        if d4.ranges_fit() {
            lemma_writes_fit(d4);
        }
    }
    store.store_set_head(new_id);
    let ghost d5 = store.doc();
    proof {
        if d5.ranges_fit() {
            lemma_writes_fit(d5);
        }
    }
    if store.store_tail() == 0 {
        store.store_set_tail(new_id);
    }
    Ok(())
}

fn do_insert_after<S: PieceStore>(store: &mut S, anchor_id: i64, coord: PieceCoord) -> (r: Result<
    (),
    EditError<S::Error>,
>)
    requires
        old(store).wf(),
        coord.end() <= u32::MAX,
    ensures
        final(store).wf(),
        final(store).rest() == old(store).rest(),
        *final(final(store).tree()) == *final(old(store).tree()),
        (final(store).doc(), r) == insert_after(old(store).doc(), anchor_id, coord),
        old(store).doc().ranges_fit() ==> final(store).doc().ranges_fit(),
{
    let ghost d0 = store.doc();
    proof {
        if d0.ranges_fit() {
            lemma_writes_fit(d0);
        }
    }
    let anchor = read(store, anchor_id)?;
    let ghost d1 = store.doc();
    proof {
        if d1.ranges_fit() {
            lemma_writes_fit(d1);
        }
    }
    do_step_forward(store, &anchor)?;
    let ghost d2 = store.doc();
    proof {
        if d2.ranges_fit() {
            lemma_writes_fit(d2);
        }
    }
    let new_id: i64 = store.store_alloc_piece_id()?;
    let ghost d3 = store.doc();
    proof {
        if d3.ranges_fit() {
            lemma_writes_fit(d3);
        }
    }
    store.store_insert_row(new_id, anchor_id, anchor.next_id, coord)?;
    let ghost d4 = store.doc();
    proof {
        if d4.ranges_fit() {
            lemma_writes_fit(d4);
        }
    }
    store.store_set_next(anchor_id, new_id)?;
    do_relink_next(store, anchor.next_id, new_id)
}

fn derive_insert_splice<S: PieceStore>(store: &mut S, found: ResolveMatch, at: BufferCoord) -> (r: Result<
    InsertSplice,
    EditError<S::Error>,
>)
    requires
        old(store).wf(),
    ensures
        final(store).wf(),
        final(store).rest() == old(store).rest(),
        *final(final(store).tree()) == *final(old(store).tree()),
        (final(store).doc(), r) == insert_splice(old(store).doc(), found, at),
{
    match found {
        ResolveMatch::BeforeHead | ResolveMatch::BeforeHeadClamped => Ok(InsertSplice::AtHead),
        ResolveMatch::AfterTailClamped => Err(
            EditError::Fault(EditFault::InsertClampedForward { at }),
        ),
        ResolveMatch::AfterClamp { row_id } => Ok(InsertSplice::AfterRow { id: row_id }),
        ResolveMatch::InRow { row, k } => {
            if k == row.coord.len_bytes {
                Ok(InsertSplice::AfterRow { id: row.id })
            } else if k == 0 {
                match do_step_backward(store, &row)? {
                    None => Ok(InsertSplice::AtHead),
                    Some(_) => Ok(InsertSplice::AfterRow { id: row.prev_id }),
                }
            } else {
                Ok(InsertSplice::SplitRow { row, k })
            }
        },
    }
}

/// Inserts a piece at a coordinate.
pub fn apply_insert_to_store<S: PieceStore>(store: &mut S, at: BufferCoord, coord: PieceCoord) -> (r: Result<
    (),
    EditError<S::Error>,
>)
    requires
        old(store).wf(),
        coord.end() <= u32::MAX,
    ensures
        final(store).wf(),
        final(store).rest() == old(store).rest(),
        *final(final(store).tree()) == *final(old(store).tree()),
        (final(store).doc(), r) == insert_piece(old(store).doc(), at, coord),
        old(store).doc().ranges_fit() ==> final(store).doc().ranges_fit(),
{
    let ghost d0 = store.doc();
    proof {
        store.lemma_ids_match();
        lemma_resolve_only_reads(d0, at, ResolvePurpose::InsertAnchor);
        lemma_same_rows_fit(d0, resolve_coord(d0, at, ResolvePurpose::InsertAnchor).0);
    }
    let found = resolve_store_coord(store, at, ResolvePurpose::InsertAnchor)?;
    let ghost d1 = store.doc();
    proof {
        lemma_same_rows_fit(d0, d1);
        lemma_same_rows_fit(d1, insert_splice(d1, found, at).0);
    }
    let splice = derive_insert_splice(store, found, at)?;
    match splice {
        InsertSplice::AtHead => do_insert_at_head(store, coord),
        InsertSplice::AfterRow { id } => do_insert_after(store, id, coord),
        InsertSplice::SplitRow { row, k } => do_split_row(store, &row, k, k, coord),
    }
}

// ---------- deletion ----------

/// Marks a row as deleted.
pub open spec fn tombstone_row<E>(doc: Doc<E>, row_id: i64) -> (Doc<E>, Result<(), EditError<E>>) {
    let (d, r) = doc.read(row_id);
    match r {
        Err(e) => (d, Err(e)),
        Ok(row) => if row.coord.tombstone {
            (d, Ok(()))
        } else {
            d.set_coord(row_id, PieceCoord { tombstone: true, ..row.coord })
        },
    }
}

/// What is deleted of the first or last row of a range: all of it, or from a
/// byte on, or up to a byte.
#[derive(Clone, Copy, Debug, PartialEq, Eq, Structural)]
pub enum EdgeRow {
    Whole(Option<i64>),
    Ragged { row_id: i64, k: u32 },
}

pub open spec fn edge_row_id(edge: EdgeRow) -> Option<i64> {
    match edge {
        EdgeRow::Whole(id) => id,
        EdgeRow::Ragged { row_id, .. } => Some(row_id),
    }
}

/// The first row that a deletion from `start` touches.
pub open spec fn first_edge<E>(doc: Doc<E>, start: DeletePos) -> (Doc<E>, Result<EdgeRow, EditError<E>>) {
    match start {
        DeletePos::InRow { row_id, k } => {
            let (d, r) = doc.read(row_id);
            match r {
                Err(e) => (d, Err(e)),
                Ok(row) => if k == row.coord.len_bytes {
                    let (d2, r2) = live_after(d, row, 0, doc.next_piece_id as int, WalkKind::NextLive);
                    (
                        d2,
                        match r2 {
                            Err(e) => Err(e),
                            Ok(None) => Ok(EdgeRow::Whole(None)),
                            Ok(Some(next)) => Ok(EdgeRow::Whole(Some(next.id))),
                        },
                    )
                } else {
                    (d, Ok(EdgeRow::Ragged { row_id, k }))
                },
            }
        },
        DeletePos::AfterTail => (doc, Ok(EdgeRow::Whole(None))),
        DeletePos::BeforeHead => {
            let (d, r) = first_live_row(doc);
            (
                d,
                match r {
                    Err(e) => Err(e),
                    Ok(id) => Ok(EdgeRow::Whole(id)),
                },
            )
        },
    }
}

/// The last row that a deletion up to `end` touches.
pub open spec fn last_edge<E>(doc: Doc<E>, end: DeletePos) -> (Doc<E>, Result<EdgeRow, EditError<E>>) {
    match end {
        DeletePos::InRow { row_id, k } => {
            let (d, r) = doc.read(row_id);
            (
                d,
                match r {
                    Err(e) => Err(e),
                    Ok(row) => if k == row.coord.len_bytes {
                        Ok(EdgeRow::Whole(Some(row_id)))
                    } else {
                        Ok(EdgeRow::Ragged { row_id, k })
                    },
                },
            )
        },
        DeletePos::AfterTail => {
            let (d, r) = last_live_row(doc);
            (
                d,
                match r {
                    Err(e) => Err(e),
                    Ok(id) => Ok(EdgeRow::Whole(id)),
                },
            )
        },
        DeletePos::BeforeHead => (doc, Ok(EdgeRow::Whole(None))),
    }
}

/// Deletes the bytes `k1..k2` of one row.
pub open spec fn delete_in_row<E>(doc: Doc<E>, row: PieceRow, k1: u32, k2: u32) -> (
    Doc<E>,
    Result<(), EditError<E>>,
) {
    if k1 == 0 && k2 == row.coord.len_bytes {
        tombstone_row(doc, row.id)
    } else if k1 == 0 {
        cut_row(doc, row, k2, true, false)
    } else if k2 == row.coord.len_bytes {
        cut_row(doc, row, k1, row.coord.tombstone, true)
    } else {
        split_row(
            doc,
            row,
            k1,
            k2,
            PieceCoord {
                start_byte: (row.coord.start_byte + k1) as u32,
                len_bytes: (k2 - k1) as u32,
                tombstone: true,
                ..row.coord
            },
        )
    }
}

/// Deletes every row between `row` and `last_id`.
pub open spec fn delete_between<E>(doc: Doc<E>, row: PieceRow, last_id: i64, hops: int, cap: int) -> (
    Doc<E>,
    Result<(), EditError<E>>,
)
    decreases cap - hops,
{
    let (d, r) = step_forward(doc, row);
    match r {
        Err(e) => (d, Err(e)),
        Ok(None) => (d, Err(EditError::Fault(EditFault::EndUnreachable))),
        Ok(Some(next)) => if next.id == last_id {
            (d, Ok(()))
        } else {
            let (d2, r2) = tombstone_row(d, next.id);
            match r2 {
                Err(e) => (d2, Err(e)),
                Ok(_) => if hops + 1 > cap {
                    (d2, Err(EditError::Fault(EditFault::WalkTooLong(WalkKind::Interior))))
                } else {
                    delete_between(d2, next, last_id, hops + 1, cap)
                },
            }
        },
    }
}

/// Deletes what lies from the first edge of a range on, in its row.
pub open spec fn delete_first<E>(doc: Doc<E>, first: EdgeRow, first_id: i64) -> (
    Doc<E>,
    Result<(), EditError<E>>,
) {
    match first {
        EdgeRow::Whole(_) => tombstone_row(doc, first_id),
        EdgeRow::Ragged { row_id, k } => {
            let (d, r) = doc.read(row_id);
            match r {
                Err(e) => (d, Err(e)),
                Ok(row) => cut_row(d, row, k, row.coord.tombstone, true),
            }
        },
    }
}

/// Deletes what lies up to the last edge of a range, in its row.
pub open spec fn delete_last<E>(doc: Doc<E>, last: EdgeRow, last_id: i64) -> (
    Doc<E>,
    Result<(), EditError<E>>,
) {
    match last {
        EdgeRow::Whole(_) => tombstone_row(doc, last_id),
        EdgeRow::Ragged { row_id, k } => {
            let (d, r) = doc.read(row_id);
            match r {
                Err(e) => (d, Err(e)),
                Ok(row) => cut_row(d, row, k, true, false),
            }
        },
    }
}

/// Deletes a range whose two edges lie in different rows.
pub open spec fn delete_rows<E>(doc: Doc<E>, first: EdgeRow, first_id: i64, last: EdgeRow, last_id: i64) -> (
    Doc<E>,
    Result<(), EditError<E>>,
) {
    let (d1, r1) = delete_first(doc, first, first_id);
    match r1 {
        Err(e) => (d1, Err(e)),
        Ok(_) => {
            let (d2, r2) = d1.read(first_id);
            match r2 {
                Err(e) => (d2, Err(e)),
                Ok(row) => {
                    let (d3, r3) = delete_between(d2, row, last_id, 0, d1.next_piece_id as int);
                    match r3 {
                        Err(e) => (d3, Err(e)),
                        Ok(_) => delete_last(d3, last, last_id),
                    }
                },
            }
        },
    }
}

/// Deletes what lies between two edges.
pub open spec fn delete_edges<E>(doc: Doc<E>, first: EdgeRow, last: EdgeRow) -> (
    Doc<E>,
    Result<(), EditError<E>>,
) {
    match (edge_row_id(first), edge_row_id(last)) {
        (Some(first_id), Some(last_id)) => if first_id == last_id {
            let (d, r) = doc.read(first_id);
            match r {
                Err(e) => (d, Err(e)),
                Ok(row) => delete_in_row(
                    d,
                    row,
                    match first {
                        EdgeRow::Whole(_) => 0,
                        EdgeRow::Ragged { k, .. } => k,
                    },
                    match last {
                        EdgeRow::Whole(_) => row.coord.len_bytes,
                        EdgeRow::Ragged { k, .. } => k,
                    },
                ),
            }
        } else {
            delete_rows(doc, first, first_id, last, last_id)
        },
        _ => (doc, Ok(())),
    }
}

/// Deletes what lies between two positions, the first before the second.
pub open spec fn delete_range<E>(doc: Doc<E>, start: DeletePos, end: DeletePos) -> (
    Doc<E>,
    Result<(), EditError<E>>,
) {
    let (d1, r1) = first_edge(doc, start);
    match r1 {
        Err(e) => (d1, Err(e)),
        Ok(first) => {
            let (d2, r2) = last_edge(d1, end);
            match r2 {
                Err(e) => (d2, Err(e)),
                Ok(last) => delete_edges(d2, first, last),
            }
        },
    }
}

/// Deletes what lies between two coordinates.
pub open spec fn delete_text<E>(doc: Doc<E>, start: BufferCoord, end: BufferCoord) -> (
    Doc<E>,
    Result<(), EditError<E>>,
) {
    let (d1, r1) = delete_start(doc, start);
    match r1 {
        Err(e) => (d1, Err(e)),
        Ok(from) => {
            let (d2, r2) = delete_end(d1, end);
            match r2 {
                Err(e) => (d2, Err(e)),
                Ok(to) => {
                    let (d3, r3) = position_order(d2, from, to);
                    match r3 {
                        Err(e) => (d3, Err(e)),
                        Ok(PosOrder::Equal) => (d3, Ok(())),
                        Ok(PosOrder::Greater) => (d3, Err(EditError::Fault(EditFault::StartPastEnd))),
                        Ok(PosOrder::Less) => delete_range(d3, from, to),
                    }
                },
            }
        },
    }
}

/// Every row read before, other than `except`, covers the bytes that it covered.
spec fn keeps_extents<E>(before: Doc<E>, after: Doc<E>, except: Set<i64>) -> bool {
    forall|id: i64| #[trigger]
        before.loaded.contains(id) && !except.contains(id) && before.at(id) is Ok ==> {
            &&& after.loaded.contains(id)
            &&& after.at(id) is Ok
            &&& after.at(id)->Ok_0.coord.start_byte == before.at(id)->Ok_0.coord.start_byte
            &&& after.at(id)->Ok_0.coord.len_bytes == before.at(id)->Ok_0.coord.len_bytes
        }
}

proof fn lemma_tombstone_keeps_extents<E>(doc: Doc<E>, row_id: i64)
    requires
        doc.ids_match(),
    ensures
        keeps_extents(doc, tombstone_row(doc, row_id).0, Set::empty()),
{
    let d = tombstone_row(doc, row_id).0;
    assert forall|id: i64| #[trigger] doc.loaded.contains(id) && doc.at(id) is Ok implies {
        &&& d.loaded.contains(id)
        &&& d.at(id) is Ok
        &&& d.at(id)->Ok_0.coord.start_byte == doc.at(id)->Ok_0.coord.start_byte
        &&& d.at(id)->Ok_0.coord.len_bytes == doc.at(id)->Ok_0.coord.len_bytes
    } by {
        assert(doc.at(row_id) is Ok ==> doc.at(row_id)->Ok_0.id == row_id);
    }
}

proof fn lemma_cut_keeps_extents<E>(
    doc: Doc<E>,
    row: PieceRow,
    k: u32,
    left_tombstone: bool,
    right_tombstone: bool,
)
    requires
        doc.ids_match(),
    ensures
        ({
            let (d, r) = cut_row(doc, row, k, left_tombstone, right_tombstone);
            r is Ok ==> keeps_extents(doc, d, set![row.id])
        }),
{
    let (d, r) = cut_row(doc, row, k, left_tombstone, right_tombstone);
    if r is Ok {
        let d1 = step_forward(doc, row).0;
        let (d2, r2) = d1.alloc_piece_id();
        let m_id = r2->Ok_0;
        let right = right_part(row.coord, k, right_tombstone);
        let d3 = d2.insert_new_row(m_id, row.id, row.next_id, right).0;
        let d4 = d3.set_coord(row.id, left_part(row.coord, k, left_tombstone)).0;
        let d5 = d4.set_next(row.id, m_id).0;
        lemma_step_only_reads(doc, row);
        assert forall|id: i64| #[trigger] doc.loaded.contains(id) && !set![row.id].contains(id) && doc.at(
            id,
        ) is Ok implies {
            &&& d.loaded.contains(id)
            &&& d.at(id) is Ok
            &&& d.at(id)->Ok_0.coord.start_byte == doc.at(id)->Ok_0.coord.start_byte
            &&& d.at(id)->Ok_0.coord.len_bytes == doc.at(id)->Ok_0.coord.len_bytes
        } by {
            assert(d1.at(id) == doc.at(id) && d2.at(id) == doc.at(id));
            assert(d2.loaded.contains(id));
            assert(id != m_id);
            assert(d3.at(id) == doc.at(id));
            lemma_keeps_ids(d1, d2);
            lemma_insert_keeps_ids(d2, m_id, row.id, row.next_id, right);
            lemma_set_keeps_ids(d3, row.id);
            assert(d4.at(id) == doc.at(id));
            lemma_set_keeps_ids(d4, row.id);
            assert(d5.at(id) == doc.at(id));
            lemma_set_keeps_ids(d5, row.next_id);
        }
    }
}

pub proof fn lemma_step_only_reads<E>(doc: Doc<E>, row: PieceRow)
    requires
        doc.ids_match(),
    ensures
        only_read(doc, step_forward(doc, row).0),
        step_forward(doc, row).0.ids_match(),
        only_read(doc, step_backward(doc, row).0),
        step_backward(doc, row).0.ids_match(),
{
    lemma_read_keeps_ids(doc, row.next_id);
    lemma_read_keeps_ids(doc, row.prev_id);
}

proof fn lemma_insert_keeps_ids<E>(doc: Doc<E>, row_id: i64, prev_id: i64, next_id: i64, coord: PieceCoord)
    requires
        doc.ids_match(),
    ensures
        doc.insert_new_row(row_id, prev_id, next_id, coord).0.ids_match(),
{
    let d = doc.insert_new_row(row_id, prev_id, next_id, coord).0;
    assert forall|i: i64| (#[trigger] d.at(i)) is Ok implies d.at(i)->Ok_0.id == i by {
        assert(doc.at(i) is Ok ==> doc.at(i)->Ok_0.id == i);
    }
}

/// Changing one field of a row leaves every row under its own id, and every
/// other row as it was.
proof fn lemma_set_keeps_ids<E>(doc: Doc<E>, row_id: i64)
    requires
        doc.ids_match(),
    ensures
        forall|p: i64| (#[trigger] doc.set_prev(row_id, p)).0.ids_match(),
        forall|n: i64| (#[trigger] doc.set_next(row_id, n)).0.ids_match(),
        forall|c: PieceCoord| (#[trigger] doc.set_coord(row_id, c)).0.ids_match(),
{
    assert(doc.at(row_id) is Ok ==> doc.at(row_id)->Ok_0.id == row_id);
    assert forall|p: i64| (#[trigger] doc.set_prev(row_id, p)).0.ids_match() by {
        let d = doc.set_prev(row_id, p).0;
        assert forall|i: i64| (#[trigger] d.at(i)) is Ok implies d.at(i)->Ok_0.id == i by {
            assert(doc.at(i) is Ok ==> doc.at(i)->Ok_0.id == i);
        }
    }
    assert forall|n: i64| (#[trigger] doc.set_next(row_id, n)).0.ids_match() by {
        let d = doc.set_next(row_id, n).0;
        assert forall|i: i64| (#[trigger] d.at(i)) is Ok implies d.at(i)->Ok_0.id == i by {
            assert(doc.at(i) is Ok ==> doc.at(i)->Ok_0.id == i);
        }
    }
    assert forall|c: PieceCoord| (#[trigger] doc.set_coord(row_id, c)).0.ids_match() by {
        let d = doc.set_coord(row_id, c).0;
        assert forall|i: i64| (#[trigger] d.at(i)) is Ok implies d.at(i)->Ok_0.id == i by {
            assert(doc.at(i) is Ok ==> doc.at(i)->Ok_0.id == i);
        }
    }
}

fn tombstone_in_place<S: PieceStore>(store: &mut S, row_id: i64) -> (r: Result<(), EditError<S::Error>>)
    requires
        old(store).wf(),
    ensures
        final(store).wf(),
        final(store).rest() == old(store).rest(),
        *final(final(store).tree()) == *final(old(store).tree()),
        (final(store).doc(), r) == tombstone_row(old(store).doc(), row_id),
        old(store).doc().ranges_fit() ==> final(store).doc().ranges_fit(),
{
    let ghost d0 = store.doc();
    proof {
        if d0.ranges_fit() {
            lemma_writes_fit(d0);
        }
    }
    let row = read(store, row_id)?;
    proof {
        if d0.ranges_fit() {
            lemma_writes_fit(store.doc());
        }
    }
    if !row.coord.tombstone {
        store.store_set_coord(
            row_id,
            PieceCoord {
                buffer_id: row.coord.buffer_id,
                start_byte: row.coord.start_byte,
                len_bytes: row.coord.len_bytes,
                tombstone: true,
            },
        )?;
    }
    Ok(())
}

spec fn edge_in_doc<E>(doc: Doc<E>, edge: EdgeRow) -> bool {
    match edge {
        EdgeRow::Whole(Some(id)) => doc.loaded.contains(id) && doc.at(id) is Ok,
        EdgeRow::Whole(None) => true,
        EdgeRow::Ragged { row_id, k } => doc.loaded.contains(row_id) && doc.at(row_id) is Ok && k
            <= doc.at(row_id)->Ok_0.coord.len_bytes,
    }
}

fn find_first_edge<S: PieceStore>(store: &mut S, start: DeletePos) -> (r: Result<
    EdgeRow,
    EditError<S::Error>,
>)
    requires
        old(store).wf(),
        pos_in_doc(old(store).doc(), start),
    ensures
        final(store).wf(),
        final(store).rest() == old(store).rest(),
        *final(final(store).tree()) == *final(old(store).tree()),
        (final(store).doc(), r) == first_edge(old(store).doc(), start),
        only_read(old(store).doc(), final(store).doc()),
        r matches Ok(edge) ==> edge_in_doc(final(store).doc(), edge),
{
    let ghost d0 = store.doc();
    proof {
        store.lemma_ids_match();
        lemma_ends_only_read(d0);
    }
    match start {
        DeletePos::BeforeHead => {
            let id = find_first_live_row(store)?;
            Ok(EdgeRow::Whole(id))
        },
        DeletePos::InRow { row_id, k } => {
            let row = read(store, row_id)?;
            proof {
                lemma_read_keeps_ids(d0, row_id);
                lemma_live_after_only_reads(
                    store.doc(),
                    row,
                    0,
                    d0.next_piece_id as int,
                    WalkKind::NextLive,
                );
            }
            if k == row.coord.len_bytes {
                match find_live_after(store, row, WalkKind::NextLive)? {
                    None => Ok(EdgeRow::Whole(None)),
                    Some(next) => Ok(EdgeRow::Whole(Some(next.id))),
                }
            } else {
                Ok(EdgeRow::Ragged { row_id, k })
            }
        },
        DeletePos::AfterTail => Ok(EdgeRow::Whole(None)),
    }
}

fn find_last_edge<S: PieceStore>(store: &mut S, end: DeletePos) -> (r: Result<EdgeRow, EditError<S::Error>>)
    requires
        old(store).wf(),
        pos_in_doc(old(store).doc(), end),
    ensures
        final(store).wf(),
        final(store).rest() == old(store).rest(),
        *final(final(store).tree()) == *final(old(store).tree()),
        (final(store).doc(), r) == last_edge(old(store).doc(), end),
        only_read(old(store).doc(), final(store).doc()),
        r matches Ok(edge) ==> edge_in_doc(final(store).doc(), edge),
{
    let ghost d0 = store.doc();
    proof {
        store.lemma_ids_match();
        lemma_ends_only_read(d0);
    }
    match end {
        DeletePos::AfterTail => {
            let id = find_last_live_row(store)?;
            Ok(EdgeRow::Whole(id))
        },
        DeletePos::InRow { row_id, k } => {
            let row = read(store, row_id)?;
            if k == row.coord.len_bytes {
                Ok(EdgeRow::Whole(Some(row_id)))
            } else {
                Ok(EdgeRow::Ragged { row_id, k })
            }
        },
        DeletePos::BeforeHead => Ok(EdgeRow::Whole(None)),
    }
}

fn do_delete_in_row<S: PieceStore>(store: &mut S, row: &PieceRow, k1: u32, k2: u32) -> (r: Result<
    (),
    EditError<S::Error>,
>)
    requires
        old(store).wf(),
        k1 <= k2 <= row.coord.len_bytes,
        row.coord.end() <= u32::MAX,
    ensures
        final(store).wf(),
        final(store).rest() == old(store).rest(),
        *final(final(store).tree()) == *final(old(store).tree()),
        (final(store).doc(), r) == delete_in_row(old(store).doc(), *row, k1, k2),
        old(store).doc().ranges_fit() ==> final(store).doc().ranges_fit(),
{
    if k1 == 0 && k2 == row.coord.len_bytes {
        tombstone_in_place(store, row.id)
    } else if k1 == 0 {
        do_cut_row(store, row, k2, true, false)
    } else if k2 == row.coord.len_bytes {
        do_cut_row(store, row, k1, row.coord.tombstone, true)
    } else {
        let middle = PieceCoord {
            buffer_id: row.coord.buffer_id,
            start_byte: row.coord.start_byte + k1,
            len_bytes: k2 - k1,
            tombstone: true,
        };
        do_split_row(store, row, k1, k2, middle)
    }
}

fn do_delete_between<S: PieceStore>(store: &mut S, row: PieceRow, last_id: i64) -> (r: Result<
    (),
    EditError<S::Error>,
>)
    requires
        old(store).wf(),
        old(store).doc().ranges_fit(),
    ensures
        final(store).wf(),
        final(store).rest() == old(store).rest(),
        *final(final(store).tree()) == *final(old(store).tree()),
        (final(store).doc(), r) == delete_between(
            old(store).doc(),
            row,
            last_id,
            0,
            old(store).doc().next_piece_id as int,
        ),
        final(store).doc().ranges_fit(),
        r is Ok ==> keeps_extents(old(store).doc(), final(store).doc(), Set::empty()),
{
    let cap: i64 = store.piece_id_ceiling();
    let mut cur = row;
    let mut hops: i64 = 0;
    loop
        invariant
            store.wf(),
            store.rest() == old(store).rest(),
            *final(store.tree()) == *final(old(store).tree()),
            0 <= hops,
            hops <= cap || hops == 0,
            cap == old(store).doc().next_piece_id,
            store.doc().ranges_fit(),
            keeps_extents(old(store).doc(), store.doc(), Set::empty()),
            delete_between(old(store).doc(), row, last_id, 0, cap as int) == delete_between(
                store.doc(),
                cur,
                last_id,
                hops as int,
                cap as int,
            ),
        decreases cap - hops,
    {
        let ghost d0 = store.doc();
        proof {
            store.lemma_ids_match();
            lemma_step_only_reads(d0, cur);
            lemma_same_rows_fit(d0, step_forward(d0, cur).0);
        }
        match do_step_forward(store, &cur)? {
            None => {
                return Err(EditError::Fault(EditFault::EndUnreachable));
            },
            Some(next) => {
                proof {
                    lemma_same_rows_fit(d0, store.doc());
                }
                if next.id == last_id {
                    return Ok(());
                }
                proof {
                    lemma_tombstone_keeps_extents(store.doc(), next.id);
                }
                tombstone_in_place(store, next.id)?;
                cur = next;
            },
        }
        if hops >= cap {
            return Err(EditError::Fault(EditFault::WalkTooLong(WalkKind::Interior)));
        }
        hops = hops + 1;
    }
}

fn do_delete_rows<S: PieceStore>(store: &mut S, first: EdgeRow, first_id: i64, last: EdgeRow, last_id: i64) -> (r:
    Result<(), EditError<S::Error>>)
    requires
        old(store).wf(),
        old(store).doc().ranges_fit(),
        edge_in_doc(old(store).doc(), first),
        edge_in_doc(old(store).doc(), last),
        edge_row_id(first) == Some(first_id),
        edge_row_id(last) == Some(last_id),
        first_id != last_id,
    ensures
        final(store).wf(),
        final(store).rest() == old(store).rest(),
        *final(final(store).tree()) == *final(old(store).tree()),
        (final(store).doc(), r) == delete_rows(old(store).doc(), first, first_id, last, last_id),
        final(store).doc().ranges_fit(),
{
    let ghost d0 = store.doc();
    proof {
        store.lemma_ids_match();
    }
    match first {
        EdgeRow::Whole(_) => {
            proof {
                lemma_tombstone_keeps_extents(d0, first_id);
            }
            tombstone_in_place(store, first_id)?;
        },
        EdgeRow::Ragged { row_id, k } => {
            let row = read(store, row_id)?;
            proof {
                assert(d0.at(row_id) is Ok);
                lemma_same_rows_fit(d0, store.doc());
                lemma_read_keeps_ids(d0, row_id);
                lemma_cut_keeps_extents(store.doc(), row, k, row.coord.tombstone, true);
            }
            do_cut_row(store, &row, k, row.coord.tombstone, true)?;
        },
    }
    let ghost d1 = store.doc();
    assert(keeps_extents(d0, d1, set![first_id]));
    assert(d0.loaded.contains(last_id) && !set![first_id].contains(last_id));
    assert(d1.loaded.contains(last_id) && d1.at(last_id) is Ok);
    let row = read(store, first_id)?;
    let ghost d2 = store.doc();
    proof {
        lemma_same_rows_fit(d1, d2);
        assert(d2.loaded.contains(last_id) && d2.at(last_id) == d1.at(last_id));
    }
    do_delete_between(store, row, last_id)?;
    let ghost d3 = store.doc();
    match last {
        EdgeRow::Whole(_) => tombstone_in_place(store, last_id),
        EdgeRow::Ragged { row_id, k } => {
            let last_row = read(store, row_id)?;
            proof {
                lemma_same_rows_fit(d3, store.doc());
                assert(d3.at(row_id) is Ok);
            }
            do_cut_row(store, &last_row, k, true, false)
        },
    }
}

/// Two positions in one row come in order.
spec fn same_row_in_order(start: DeletePos, end: DeletePos) -> bool {
    match (start, end) {
        (
            DeletePos::InRow { row_id: r1, k: k1 },
            DeletePos::InRow { row_id: r2, k: k2 },
        ) => r1 == r2 ==> k1 <= k2,
        _ => true,
    }
}

fn execute_delete<S: PieceStore>(store: &mut S, start: DeletePos, end: DeletePos) -> (r: Result<
    (),
    EditError<S::Error>,
>)
    requires
        old(store).wf(),
        old(store).doc().ranges_fit(),
        pos_in_doc(old(store).doc(), start),
        pos_in_doc(old(store).doc(), end),
        same_row_in_order(start, end),
    ensures
        final(store).wf(),
        final(store).rest() == old(store).rest(),
        *final(final(store).tree()) == *final(old(store).tree()),
        (final(store).doc(), r) == delete_range(old(store).doc(), start, end),
        final(store).doc().ranges_fit(),
{
    let ghost d0 = store.doc();
    proof {
        lemma_same_rows_fit(d0, first_edge(d0, start).0);
    }
    let first = find_first_edge(store, start)?;
    let ghost d1 = store.doc();
    proof {
        lemma_same_rows_fit(d1, last_edge(d1, end).0);
    }
    let last = find_last_edge(store, end)?;
    let ghost d2 = store.doc();
    let first_row: Option<i64> = match first {
        EdgeRow::Whole(id) => id,
        EdgeRow::Ragged { row_id, .. } => Some(row_id),
    };
    let last_row: Option<i64> = match last {
        EdgeRow::Whole(id) => id,
        EdgeRow::Ragged { row_id, .. } => Some(row_id),
    };
    match (first_row, last_row) {
        (Some(first_id), Some(last_id)) => {
            if first_id == last_id {
                let row = read(store, first_id)?;
                proof {
                    lemma_same_rows_fit(d2, store.doc());
                    assert(d2.at(first_id) == Ok::<PieceRow, S::Error>(row));
                }
                let k1: u32 = match first {
                    EdgeRow::Whole(_) => 0,
                    EdgeRow::Ragged { k, .. } => k,
                };
                let k2: u32 = match last {
                    EdgeRow::Whole(_) => row.coord.len_bytes,
                    EdgeRow::Ragged { k, .. } => k,
                };
                do_delete_in_row(store, &row, k1, k2)
            } else {
                do_delete_rows(store, first, first_id, last, last_id)
            }
        },
        _ => Ok(()),
    }
}

/// Deletes what lies between two coordinates.
pub fn apply_delete_to_store<S: PieceStore>(store: &mut S, start: BufferCoord, end: BufferCoord) -> (r: Result<
    (),
    EditError<S::Error>,
>)
    requires
        old(store).wf(),
        old(store).doc().ranges_fit(),
    ensures
        final(store).wf(),
        final(store).rest() == old(store).rest(),
        *final(final(store).tree()) == *final(old(store).tree()),
        (final(store).doc(), r) == delete_text(old(store).doc(), start, end),
        final(store).doc().ranges_fit(),
{
    let ghost d0 = store.doc();
    proof {
        store.lemma_ids_match();
        lemma_delete_ends_only_read(d0, start);
        lemma_same_rows_fit(d0, delete_start(d0, start).0);
    }
    let from = resolve_delete_start(store, start)?;
    let ghost d1 = store.doc();
    proof {
        lemma_keeps_ids(d0, d1);
        lemma_delete_ends_only_read(d1, end);
        lemma_same_rows_fit(d1, delete_end(d1, end).0);
    }
    let to = resolve_delete_end(store, end)?;
    let ghost d2 = store.doc();
    proof {
        lemma_keeps_ids(d1, d2);
        lemma_order_only_reads(d2, from, to);
        lemma_same_rows_fit(d2, position_order(d2, from, to).0);
    }
    let order = compare_positions(store, from, to)?;
    match order {
        PosOrder::Equal => Ok(()),
        PosOrder::Greater => Err(EditError::Fault(EditFault::StartPastEnd)),
        PosOrder::Less => execute_delete(store, from, to),
    }
}

} // verus!
