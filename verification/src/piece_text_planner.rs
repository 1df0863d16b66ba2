//! Edits planned in memory, over a snapshot of a document's rows.
//!
//! Nothing is read from a tree here; the edits themselves are those of
//! [`crate::piece_text_edit`].

use std::collections::{BTreeMap, HashSet};

use vstd::prelude::*;

use crate::faults::{EditFault, EndpointRole, SnapshotFault, WalkKind};
use crate::piece_text::{
    AddressView, BufferCoord, InsertedBufferManifest, PieceCoord, PieceTextEditEnvelopeV1,
    PieceTextEditItemManifest, MAX_BUFFER_LEN_BYTES,
};
use crate::piece_text_edit::{
    apply_delete_to_store, apply_insert_to_store, delete_text, insert_piece, PieceStore,
};
use crate::piece_text_overlay::{insert_len_fault, same_edit_fault, whole_buffer};
use crate::piece_text_resolution::{no_costs, Doc, EditError, ResolveEndpoint, ResolveSource};
use crate::piece_text_staging::{
    edit_output, found, found_ids, ids_where, lemma_ids_below, staged_inserts, staged_pairs,
    staged_updates, StagedRow,
};
use crate::wording::{render, words_text, Word};

verus! {

/// One row of the chain of pieces.
#[derive(Clone, Copy, Debug, PartialEq, Eq, Structural)]
pub struct PieceRow {
    pub id: i64,
    pub list_number: i64,
    pub prev_id: i64,
    pub next_id: i64,
    pub coord: PieceCoord,
}

/// What a coordinate is resolved for.
#[derive(Clone, Copy, Debug, PartialEq, Eq, Structural)]
pub enum ResolvePurpose {
    InsertAnchor,
    DeleteStart,
    DeleteEnd,
}

/// The way in which a walk leaves a run of deleted rows.
#[derive(Clone, Copy, Debug, PartialEq, Eq, Structural)]
pub enum ClampDirection {
    Forward,
    Backward,
}

impl ResolvePurpose {
    pub open spec fn name_spec(self) -> &'static str {
        match self {
            ResolvePurpose::InsertAnchor => "InsertAnchor",
            ResolvePurpose::DeleteStart => "DeleteStart",
            ResolvePurpose::DeleteEnd => "DeleteEnd",
        }
    }

    #[verifier::when_used_as_spec(name_spec)]
    pub fn name(self) -> (s: &'static str)
        ensures
            s == self.name_spec(),
    {
        match self {
            ResolvePurpose::InsertAnchor => "InsertAnchor",
            ResolvePurpose::DeleteStart => "DeleteStart",
            ResolvePurpose::DeleteEnd => "DeleteEnd",
        }
    }

    /// The start of a deletion moves towards the end of the document, an insert
    /// or the end of a deletion towards its start.
    pub open spec fn direction_spec(self) -> ClampDirection {
        if self == ResolvePurpose::DeleteStart {
            ClampDirection::Forward
        } else {
            ClampDirection::Backward
        }
    }

    #[verifier::when_used_as_spec(direction_spec)]
    pub fn clamp_direction(self) -> (d: ClampDirection)
        ensures
            d == self.direction_spec(),
    {
        match self {
            ResolvePurpose::InsertAnchor | ResolvePurpose::DeleteEnd => ClampDirection::Backward,
            ResolvePurpose::DeleteStart => ClampDirection::Forward,
        }
    }
}

/// One lookup in the index of rows by buffer.
#[derive(Clone, Debug, PartialEq, Eq)]
pub struct IndexLookup {
    pub buffer_id: i64,
    pub returned_row_ids: Vec<i64>,
}

/// One walk out of a run of deleted rows. `hops` counts the deleted rows
/// skipped; `end_row_id` is the live row reached, if the chain did not end.
#[derive(Clone, Copy, Debug, PartialEq, Eq, Structural)]
pub struct ClampWalk {
    pub start_row_id: i64,
    pub direction: ClampDirection,
    pub purpose: ResolvePurpose,
    pub hops: u32,
    pub end_row_id: Option<i64>,
}

/// What an edit looked at. The rows are those that the edit found in the tree,
/// by id; a planner that is handed a whole snapshot notes none.
#[derive(Clone, Debug, PartialEq, Eq)]
pub struct PlannerTrace {
    pub authenticated_piece_coords: Vec<(i64, PieceCoord)>,
    pub index_lookups: Vec<IndexLookup>,
    pub clamp_walks: Vec<ClampWalk>,
}

#[verifier::ext_equal]
pub struct TraceView {
    pub rows: Seq<(i64, PieceCoord)>,
    pub lookups: Seq<(i64, Seq<i64>)>,
    pub clamps: Seq<ClampWalk>,
}

pub open spec fn lookups_view(lookups: Seq<IndexLookup>) -> Seq<(i64, Seq<i64>)> {
    Seq::new(lookups.len(), |i: int| (lookups[i].buffer_id, lookups[i].returned_row_ids@))
}

impl View for PlannerTrace {
    type V = TraceView;

    open spec fn view(&self) -> TraceView {
        TraceView {
            rows: self.authenticated_piece_coords@,
            lookups: lookups_view(self.index_lookups@),
            clamps: self.clamp_walks@,
        }
    }
}

impl Default for PlannerTrace {
    fn default() -> (t: Self)
        ensures
            t@ == (TraceView { rows: Seq::empty(), lookups: Seq::empty(), clamps: Seq::empty() }),
    {
        PlannerTrace {
            authenticated_piece_coords: Vec::new(),
            index_lookups: Vec::new(),
            clamp_walks: Vec::new(),
        }
    }
}

/// A row that an edit adds.
#[derive(Clone, Copy, Debug, PartialEq, Eq, Structural)]
pub struct PieceRowInsert {
    pub new_id: i64,
    pub list_number: i64,
    pub prev_id: i64,
    pub next_id: i64,
    pub coord: PieceCoord,
}

/// The fields of a row that an edit changes.
#[derive(Clone, Copy, Debug, PartialEq, Eq)]
pub struct PieceRowUpdate {
    pub id: i64,
    pub prev_id: Option<i64>,
    pub next_id: Option<i64>,
    pub coord: Option<PieceCoord>,
}

/// A buffer that an edit adds.
#[derive(Clone, Debug, PartialEq, Eq)]
pub struct BufferRowInsert {
    pub new_id: i64,
    pub owner_table: String,
    pub owner_row_id: i64,
    pub owner_column: String,
    pub author_id: i64,
    pub len_bytes: u32,
    pub ciphertext_value_hash: [u8; 32],
}

pub struct BufferInsertView {
    pub new_id: i64,
    pub owner: AddressView,
    pub author_id: i64,
    pub len_bytes: u32,
    pub ciphertext_value_hash: [u8; 32],
}

impl View for BufferRowInsert {
    type V = BufferInsertView;

    open spec fn view(&self) -> BufferInsertView {
        BufferInsertView {
            new_id: self.new_id,
            owner: AddressView {
                table: self.owner_table@,
                row_id: self.owner_row_id,
                column: self.owner_column@,
            },
            author_id: self.author_id,
            len_bytes: self.len_bytes,
            ciphertext_value_hash: self.ciphertext_value_hash,
        }
    }
}

pub open spec fn buffer_inserts_view(inserts: Seq<BufferRowInsert>) -> Seq<BufferInsertView> {
    Seq::new(inserts.len(), |i: int| inserts[i]@)
}

/// The writes of an edit.
///
/// Rows to add are in the order of their ids, rows to change too. An endpoint is
/// given only where it moved, a counter only where a row was added.
#[derive(Clone, Debug, PartialEq, Eq)]
pub struct PlannerOutput {
    pub piece_inserts: Vec<PieceRowInsert>,
    pub piece_updates: Vec<PieceRowUpdate>,
    pub buffer_inserts: Vec<BufferRowInsert>,
    pub head_update: Option<i64>,
    pub tail_update: Option<i64>,
    pub piece_next_id_post: Option<i64>,
    pub buffers_next_id_post: Option<i64>,
    pub trace: PlannerTrace,
}

#[verifier::ext_equal]
pub struct OutputView {
    pub piece_inserts: Seq<PieceRowInsert>,
    pub piece_updates: Seq<PieceRowUpdate>,
    pub buffer_inserts: Seq<BufferInsertView>,
    pub head_update: Option<i64>,
    pub tail_update: Option<i64>,
    pub piece_next_id_post: Option<i64>,
    pub buffers_next_id_post: Option<i64>,
    pub trace: TraceView,
}

impl View for PlannerOutput {
    type V = OutputView;

    open spec fn view(&self) -> OutputView {
        OutputView {
            piece_inserts: self.piece_inserts@,
            piece_updates: self.piece_updates@,
            buffer_inserts: buffer_inserts_view(self.buffer_inserts@),
            head_update: self.head_update,
            tail_update: self.tail_update,
            piece_next_id_post: self.piece_next_id_post,
            buffers_next_id_post: self.buffers_next_id_post,
            trace: self.trace@,
        }
    }
}

impl Default for PlannerOutput {
    fn default() -> (o: Self)
        ensures
            o@ == OutputView::empty(),
    {
        PlannerOutput {
            piece_inserts: Vec::new(),
            piece_updates: Vec::new(),
            buffer_inserts: Vec::new(),
            head_update: None,
            tail_update: None,
            piece_next_id_post: None,
            buffers_next_id_post: None,
            trace: PlannerTrace::default(),
        }
    }
}

impl OutputView {
    pub open spec fn empty() -> OutputView {
        OutputView {
            piece_inserts: Seq::empty(),
            piece_updates: Seq::empty(),
            buffer_inserts: Seq::empty(),
            head_update: None,
            tail_update: None,
            piece_next_id_post: None,
            buffers_next_id_post: None,
            trace: TraceView { rows: Seq::empty(), lookups: Seq::empty(), clamps: Seq::empty() },
        }
    }
}

// ---------- snapshots ----------

/// A buffer that was there before the edit.
#[derive(Clone, Debug, PartialEq, Eq)]
pub struct BufferMeta {
    pub id: i64,
    pub owner_table: String,
    pub owner_row_id: i64,
    pub owner_column: String,
    pub author_id: i64,
    pub len_bytes: u32,
}

/// A document's rows before an edit. The endpoints of an empty document are 0.
#[derive(Clone, Debug)]
pub struct PieceSnapshot {
    pub list_number: i64,
    pub head_id: i64,
    pub tail_id: i64,
    pub pieces: Vec<PieceRow>,
    pub pre_piece_next_id: i64,
}

/// The buffers that an edit may refer to.
#[derive(Clone, Debug)]
pub struct BufferSnapshot {
    pub buffers: Vec<BufferMeta>,
    pub pre_buffers_next_id: i64,
}

/// What [`plan_edit`] plans: an edit, the document that it is for and the author
/// of the buffers that it adds.
#[derive(Clone, Debug)]
pub struct PlannerInput<'a> {
    pub envelope: &'a PieceTextEditEnvelopeV1,
    pub pieces: PieceSnapshot,
    pub buffers: BufferSnapshot,
    pub author_id: i64,
}

/// Why an edit cannot be planned.
#[derive(Clone, Copy, Debug, PartialEq, Eq, Structural)]
pub enum PlannerError {
    UnknownCoordinate { coord: BufferCoord, purpose: ResolvePurpose },
    InvalidCoordinate(EditFault),
    InvalidEdit(EditFault),
    BufferNotFound { buffer_id: i64 },
    ListMismatch { row_id: i64, expected_list: i64, found_list: i64 },
    SnapshotInvariant(SnapshotFault),
}

impl PlannerError {
    /// What the error's message is made of.
    pub open spec fn words(self) -> Seq<Word> {
        match self {
            PlannerError::UnknownCoordinate { coord, purpose } => {
                EditFault::UnknownCoordinate { coord, purpose }.words()
            },
            PlannerError::InvalidCoordinate(f) => seq![Word::Lit("invalid coordinate: ")] + f.words(),
            PlannerError::InvalidEdit(f) => seq![Word::Lit("invalid edit: ")] + f.words(),
            PlannerError::BufferNotFound { buffer_id } => seq![
                Word::Lit("buffer "), Word::Num(buffer_id), Word::Lit(" not in snapshot"),
            ],
            PlannerError::ListMismatch { row_id, expected_list, found_list } => seq![
                Word::Lit("row "), Word::Num(row_id), Word::Lit(" belongs to list "),
                Word::Num(found_list), Word::Lit(", expected "), Word::Num(expected_list),
            ],
            PlannerError::SnapshotInvariant(f) => seq![Word::Lit("snapshot invariant: ")] + f.words(),
        }
    }

    fn to_words(&self) -> (v: Vec<Word>)
        ensures
            v@ =~= self.words(),
    {
        match *self {
            PlannerError::UnknownCoordinate { coord, purpose } => {
                EditFault::UnknownCoordinate { coord, purpose }.to_words()
            },
            PlannerError::InvalidCoordinate(f) => {
                let mut v = vec![Word::Lit("invalid coordinate: ")];
                let mut tail = f.to_words();
                v.append(&mut tail);
                v
            },
            PlannerError::InvalidEdit(f) => {
                let mut v = vec![Word::Lit("invalid edit: ")];
                let mut tail = f.to_words();
                v.append(&mut tail);
                v
            },
            PlannerError::BufferNotFound { buffer_id } => vec![
                Word::Lit("buffer "), Word::Num(buffer_id), Word::Lit(" not in snapshot"),
            ],
            PlannerError::ListMismatch { row_id, expected_list, found_list } => vec![
                Word::Lit("row "), Word::Num(row_id), Word::Lit(" belongs to list "),
                Word::Num(found_list), Word::Lit(", expected "), Word::Num(expected_list),
            ],
            PlannerError::SnapshotInvariant(f) => {
                let mut v = vec![Word::Lit("snapshot invariant: ")];
                let mut tail = f.to_words();
                v.append(&mut tail);
                v
            },
        }
    }

    /// The error's message.
    pub fn message(&self) -> (m: String)
        ensures
            m@ == words_text(self.words()),
    {
        let words = self.to_words();
        render(&words)
    }
}

/// The error that a failed step of an edit is reported as.
pub open spec fn fault_error(fault: EditFault) -> PlannerError {
    match fault {
        EditFault::UnknownCoordinate { coord, purpose } => PlannerError::UnknownCoordinate { coord, purpose },
        EditFault::BufferNotPositive { .. } => PlannerError::InvalidCoordinate(fault),
        EditFault::InsertClampedForward { .. } => PlannerError::InvalidCoordinate(fault),
        EditFault::SameEditBuffer { .. } => PlannerError::InvalidCoordinate(fault),
        EditFault::StartPastEnd => PlannerError::InvalidEdit(fault),
        EditFault::PieceIdOverflow => PlannerError::InvalidEdit(fault),
        EditFault::BufferIdOverflow => PlannerError::InvalidEdit(fault),
        EditFault::DoubleAllocated { .. } => PlannerError::InvalidEdit(fault),
        EditFault::RowIdNotPositive { .. } => PlannerError::InvalidEdit(fault),
        EditFault::EmptyInsert => PlannerError::InvalidEdit(fault),
        EditFault::InsertTooLong { .. } => PlannerError::InvalidEdit(fault),
        EditFault::WalkTooLong(WalkKind::Order) => PlannerError::SnapshotInvariant(
            SnapshotFault::ChainTooLong,
        ),
        _ => PlannerError::SnapshotInvariant(SnapshotFault::Chain(fault)),
    }
}

fn error_of(fault: EditFault) -> (e: PlannerError)
    ensures
        e == fault_error(fault),
{
    match fault {
        EditFault::UnknownCoordinate { coord, purpose } => PlannerError::UnknownCoordinate { coord, purpose },
        EditFault::BufferNotPositive { .. }
        | EditFault::InsertClampedForward { .. }
        | EditFault::SameEditBuffer { .. } => PlannerError::InvalidCoordinate(fault),
        EditFault::StartPastEnd
        | EditFault::PieceIdOverflow
        | EditFault::BufferIdOverflow
        | EditFault::DoubleAllocated { .. }
        | EditFault::RowIdNotPositive { .. }
        | EditFault::EmptyInsert
        | EditFault::InsertTooLong { .. } => PlannerError::InvalidEdit(fault),
        EditFault::WalkTooLong(WalkKind::Order) => PlannerError::SnapshotInvariant(
            SnapshotFault::ChainTooLong,
        ),
        _ => PlannerError::SnapshotInvariant(SnapshotFault::Chain(fault)),
    }
}

pub open spec fn planner_result<T>(r: Result<T, EditError<PlannerError>>) -> Result<T, PlannerError> {
    match r {
        Ok(t) => Ok(t),
        Err(EditError::Store(e)) => Err(e),
        Err(EditError::Fault(f)) => Err(fault_error(f)),
    }
}

fn to_planner_result<T>(r: Result<T, EditError<PlannerError>>) -> (o: Result<T, PlannerError>)
    ensures
        o == planner_result(r),
{
    match r {
        Ok(t) => Ok(t),
        Err(EditError::Store(e)) => Err(e),
        Err(EditError::Fault(f)) => Err(error_of(f)),
    }
}

// ---------- what a snapshot must be ----------

pub open spec fn broken(fault: SnapshotFault) -> Option<PlannerError> {
    Some(PlannerError::SnapshotInvariant(fault))
}

/// The rows by id; of two with the same id, the later one.
pub open spec fn rows_by_id(rows: Seq<PieceRow>) -> Map<i64, PieceRow>
    decreases rows.len(),
{
    if rows.len() == 0 {
        Map::empty()
    } else {
        rows_by_id(rows.drop_last()).insert(rows.last().id, rows.last())
    }
}

/// The rows of a buffer, in the snapshot's order.
pub open spec fn rows_in_buffer(rows: Seq<PieceRow>, buffer_id: i64) -> Seq<i64>
    decreases rows.len(),
{
    if rows.len() == 0 {
        Seq::empty()
    } else if rows.last().coord.buffer_id == buffer_id {
        rows_in_buffer(rows.drop_last(), buffer_id).push(rows.last().id)
    } else {
        rows_in_buffer(rows.drop_last(), buffer_id)
    }
}

/// What is wrong with a row by itself or next to the rows before it.
pub open spec fn row_fault(list_number: i64, next_id: i64, earlier: Seq<PieceRow>, row: PieceRow) -> Option<
    PlannerError,
> {
    if row.id <= 0 {
        broken(SnapshotFault::RowIdNotPositive { row_id: row.id })
    } else if row.id >= next_id {
        broken(SnapshotFault::RowIdPastNext { row_id: row.id, next_id })
    } else if row.list_number != list_number {
        Some(
            PlannerError::ListMismatch {
                row_id: row.id,
                expected_list: list_number,
                found_list: row.list_number,
            },
        )
    } else if row.coord.len_bytes == 0 {
        broken(SnapshotFault::ZeroLength { row_id: row.id })
    } else if rows_by_id(earlier).contains_key(row.id) {
        broken(SnapshotFault::DuplicateRow { row_id: row.id })
    } else {
        None
    }
}

/// The first fault among rows, in the snapshot's order.
pub open spec fn rows_fault(list_number: i64, next_id: i64, rows: Seq<PieceRow>) -> Option<PlannerError>
    decreases rows.len(),
{
    if rows.len() == 0 {
        None
    } else {
        match rows_fault(list_number, next_id, rows.drop_last()) {
            Some(e) => Some(e),
            None => row_fault(list_number, next_id, rows.drop_last(), rows.last()),
        }
    }
}

pub open spec fn endpoints_fault(rows: Map<i64, PieceRow>, head_id: i64, tail_id: i64) -> Option<PlannerError> {
    if head_id != 0 && !rows.contains_key(head_id) {
        broken(SnapshotFault::HeadAbsent { head_id })
    } else if head_id != 0 && rows[head_id].prev_id != 0 {
        broken(SnapshotFault::HeadHasPrev { head_id, prev_id: rows[head_id].prev_id })
    } else if tail_id != 0 && !rows.contains_key(tail_id) {
        broken(SnapshotFault::TailAbsent { tail_id })
    } else if tail_id != 0 && rows[tail_id].next_id != 0 {
        broken(SnapshotFault::TailHasNext { tail_id, next_id: rows[tail_id].next_id })
    } else if (head_id == 0) != (tail_id == 0) {
        broken(SnapshotFault::EndpointsDisagree)
    } else {
        None
    }
}

/// What is wrong with a row's pointers: each neighbour must point back, and only
/// the endpoints lack one.
pub open spec fn links_fault(rows: Map<i64, PieceRow>, head_id: i64, tail_id: i64, row: PieceRow) -> Option<
    PlannerError,
> {
    if row.prev_id != 0 && !rows.contains_key(row.prev_id) {
        broken(SnapshotFault::PrevAbsent { row_id: row.id, prev_id: row.prev_id })
    } else if row.prev_id != 0 && rows[row.prev_id].next_id != row.id {
        broken(SnapshotFault::LinksInconsistent { row_id: row.id })
    } else if row.prev_id == 0 && row.id != head_id {
        broken(SnapshotFault::NotHead { row_id: row.id })
    } else if row.next_id != 0 && !rows.contains_key(row.next_id) {
        broken(SnapshotFault::NextAbsent { row_id: row.id, next_id: row.next_id })
    } else if row.next_id != 0 && rows[row.next_id].prev_id != row.id {
        broken(SnapshotFault::LinksInconsistent { row_id: row.id })
    } else if row.next_id == 0 && row.id != tail_id {
        broken(SnapshotFault::NotTail { row_id: row.id })
    } else {
        None
    }
}

/// The first fault among rows given by id.
pub open spec fn first_fault(ids: Seq<i64>, fault: spec_fn(i64) -> Option<PlannerError>) -> Option<PlannerError>
    decreases ids.len(),
{
    if ids.len() == 0 {
        None
    } else {
        match first_fault(ids.drop_last(), fault) {
            Some(e) => Some(e),
            None => fault(ids.last()),
        }
    }
}

/// The lengths of buffers by id; of two with the same id, the later one.
pub open spec fn lengths_by_id(buffers: Seq<BufferMeta>) -> Map<i64, u32>
    decreases buffers.len(),
{
    if buffers.len() == 0 {
        Map::empty()
    } else {
        lengths_by_id(buffers.drop_last()).insert(buffers.last().id, buffers.last().len_bytes)
    }
}

pub open spec fn buffer_fault(next_id: i64, earlier: Seq<BufferMeta>, buffer: BufferMeta) -> Option<
    PlannerError,
> {
    if buffer.id <= 0 {
        broken(SnapshotFault::BufferIdNotPositive { buffer_id: buffer.id })
    } else if buffer.id >= next_id {
        broken(SnapshotFault::BufferIdPastNext { buffer_id: buffer.id, next_id })
    } else if buffer.len_bytes == 0 || buffer.len_bytes > MAX_BUFFER_LEN_BYTES {
        broken(SnapshotFault::BufferLength { buffer_id: buffer.id, len_bytes: buffer.len_bytes })
    } else if lengths_by_id(earlier).contains_key(buffer.id) {
        broken(SnapshotFault::DuplicateBuffer { buffer_id: buffer.id })
    } else {
        None
    }
}

/// The first fault among buffers, in the snapshot's order.
pub open spec fn buffers_fault(next_id: i64, buffers: Seq<BufferMeta>) -> Option<PlannerError>
    decreases buffers.len(),
{
    if buffers.len() == 0 {
        None
    } else {
        match buffers_fault(next_id, buffers.drop_last()) {
            Some(e) => Some(e),
            None => buffer_fault(next_id, buffers.drop_last(), buffers.last()),
        }
    }
}

/// A row must lie in a buffer of the snapshot.
pub open spec fn range_fault(lengths: Map<i64, u32>, row: PieceRow) -> Option<PlannerError> {
    let buffer_id = row.coord.buffer_id;
    if !lengths.contains_key(buffer_id) {
        broken(SnapshotFault::BufferAbsent { row_id: row.id, buffer_id })
    } else if row.coord.end() > u32::MAX {
        broken(SnapshotFault::RangeOverflow { row_id: row.id })
    } else if row.coord.end() > lengths[buffer_id] {
        broken(
            SnapshotFault::RangePastBuffer {
                row_id: row.id,
                buffer_id,
                end: row.coord.end() as u32,
                len_bytes: lengths[buffer_id],
            },
        )
    } else {
        None
    }
}

/// What is wrong with a snapshot, if anything.
pub open spec fn snapshot_fault(pieces: PieceSnapshot, buffers: BufferSnapshot) -> Option<PlannerError> {
    let rows = rows_by_id(pieces.pieces@);
    let ids = ids_where(|id: i64| rows.contains_key(id));
    let lengths = lengths_by_id(buffers.buffers@);
    if pieces.pre_piece_next_id < 1 {
        broken(SnapshotFault::PieceNextId)
    } else if buffers.pre_buffers_next_id < 1 {
        broken(SnapshotFault::BuffersNextId)
    } else if pieces.list_number <= 0 {
        broken(SnapshotFault::ListNumber)
    } else {
        match rows_fault(pieces.list_number, pieces.pre_piece_next_id, pieces.pieces@) {
            Some(e) => Some(e),
            None => match endpoints_fault(rows, pieces.head_id, pieces.tail_id) {
                Some(e) => Some(e),
                None => match first_fault(
                    ids,
                    |id: i64| links_fault(rows, pieces.head_id, pieces.tail_id, rows[id]),
                ) {
                    Some(e) => Some(e),
                    None => match buffers_fault(buffers.pre_buffers_next_id, buffers.buffers@) {
                        Some(e) => Some(e),
                        None => first_fault(ids, |id: i64| range_fault(lengths, rows[id])),
                    },
                },
            },
        }
    }
}

/// The document that a snapshot holds.
pub open spec fn snapshot_doc(pieces: PieceSnapshot) -> Doc<PlannerError> {
    let rows = rows_by_id(pieces.pieces@);
    let row = |id: i64|
        if rows.contains_key(id) {
            Ok(rows[id])
        } else {
            Err(PlannerError::SnapshotInvariant(SnapshotFault::RowAbsent { row_id: id }))
        };
    Doc {
        list_number: pieces.list_number,
        row,
        base: row,
        candidates: |b: i64| Ok(rows_in_buffer(pieces.pieces@, b)),
        head: Ok(pieces.head_id),
        tail: Ok(pieces.tail_id),
        next_piece_id: pieces.pre_piece_next_id,
        new_ids: Seq::empty(),
        loaded: rows.dom(),
        lookups: Seq::empty(),
        clamps: Seq::empty(),
        costs: no_costs(),
        log: Seq::empty(),
    }
}

// ---------- working copy ----------

/// A document under edit in memory.
pub struct WorkingCopy {
    list_number: i64,
    head_id: i64,
    tail_id: i64,
    pieces: BTreeMap<i64, StagedRow>,
    buffer_id_index: BTreeMap<i64, Vec<i64>>,
    next_piece_id: i64,
    new_piece_ids: Vec<i64>,
    buffers: BTreeMap<i64, u32>,
    trace: PlannerTrace,
}

/// What an index holds for a buffer.
spec fn indexed(index: Map<i64, Vec<i64>>, buffer_id: i64) -> Seq<i64> {
    if index.contains_key(buffer_id) {
        index[buffer_id]@
    } else {
        Seq::empty()
    }
}

spec fn absent(row_id: i64) -> Result<PieceRow, PlannerError> {
    Err(PlannerError::SnapshotInvariant(SnapshotFault::RowAbsent { row_id }))
}

impl ResolveSource for WorkingCopy {
    type Error = PlannerError;

    /// The lengths of the buffers that were there before the edit.
    type Rest = Map<i64, u32>;

    closed spec fn rest(&self) -> Map<i64, u32> {
        self.buffers@
    }

    closed spec fn doc(&self) -> Doc<PlannerError> {
        let rows = self.pieces@;
        let index = self.buffer_id_index@;
        Doc {
            list_number: self.list_number,
            row: |id: i64|
                if rows.contains_key(id) {
                    Ok(rows[id].current)
                } else {
                    absent(id)
                },
            base: |id: i64|
                if found(rows, id) {
                    Ok(rows[id].original->Some_0)
                } else {
                    absent(id)
                },
            candidates: |b: i64| Ok(indexed(index, b)),
            head: Ok(self.head_id),
            tail: Ok(self.tail_id),
            next_piece_id: self.next_piece_id,
            new_ids: self.new_piece_ids@,
            loaded: rows.dom(),
            lookups: lookups_view(self.trace.index_lookups@),
            clamps: self.trace.clamp_walks@,
            costs: no_costs(),
            log: Seq::empty(),
        }
    }

    type Tree = ();

    closed spec fn tree(&self) -> &mut () {
        arbitrary()
    }

    closed spec fn wf(&self) -> bool {
        &&& forall|id: i64| #[trigger]
            self.pieces@.contains_key(id) ==> {
                &&& id > 0
                &&& self.pieces@[id].current.id == id
                &&& self.new_piece_ids@.contains(id) == (self.pieces@[id].original is None)
            }
        &&& forall|i: int|
            0 <= i < self.new_piece_ids.len() ==> self.pieces@.contains_key(
                #[trigger] self.new_piece_ids@[i],
            )
    }

    proof fn lemma_ids_match(&self) {
    }

    fn list_number(&self) -> (n: i64) {
        self.list_number
    }

    fn candidate_row_ids(&mut self, buffer_id: i64) -> (r: Result<Vec<i64>, PlannerError>) {
        broadcast use vstd::std_specs::btree::group_btree_axioms;

        let mut row_ids: Vec<i64> = Vec::new();
        let mut returned_row_ids: Vec<i64> = Vec::new();
        if let Some(ids) = self.buffer_id_index.get(&buffer_id) {
            row_ids.extend_from_slice(ids.as_slice());
            returned_row_ids.extend_from_slice(ids.as_slice());
        }
        assert(row_ids@ =~= indexed(self.buffer_id_index@, buffer_id));
        assert(returned_row_ids@ =~= row_ids@);
        self.trace.index_lookups.push(IndexLookup { buffer_id, returned_row_ids });
        assert(self.doc().lookups =~= old(self).doc().lookups.push((buffer_id, row_ids@)));
        assert(self.doc().log =~= old(self).doc().after_lookup(buffer_id).log);
        Ok(row_ids)
    }

    fn read_row(&mut self, row_id: i64) -> (r: Result<PieceRow, PlannerError>) {
        broadcast use vstd::std_specs::btree::group_btree_axioms;

        assert(self.doc().log =~= self.doc().after_read(row_id).log);

        match self.pieces.get(&row_id) {
            Some(row) => {
                assert(self.doc().loaded.insert(row_id) =~= self.doc().loaded);
                Ok(row.current)
            },
            None => Err(PlannerError::SnapshotInvariant(SnapshotFault::RowAbsent { row_id })),
        }
    }

    fn read_endpoint(&mut self, endpoint: ResolveEndpoint) -> (r: Result<i64, PlannerError>) {
        assert(self.doc().log =~= self.doc().after_endpoint(endpoint).log);
        Ok(
            match endpoint {
                ResolveEndpoint::Head => self.head_id,
                ResolveEndpoint::Tail => self.tail_id,
            },
        )
    }
}

impl WorkingCopy {
    /// Takes a row to a new value.
    fn put_row(&mut self, row: PieceRow)
        requires
            old(self).wf(),
            old(self).pieces@.contains_key(row.id),
        ensures
            final(self).wf(),
            final(self).rest() == old(self).rest(),
            *final(final(self).tree()) == *final(old(self).tree()),
            final(self).doc() == old(self).doc().with_row(row),
    {
        broadcast use vstd::std_specs::btree::group_btree_axioms;

        let original = match self.pieces.get(&row.id) {
            Some(staged) => staged.original,
            None => None,
        };
        self.pieces.insert(row.id, StagedRow { current: row, original });
        proof {
            assert(self.doc().row =~= old(self).doc().with_row(row).row);
            assert(self.doc().base =~= old(self).doc().base);
            assert(self.doc().loaded =~= old(self).doc().loaded);
        }
    }

    fn row_of(&self, row_id: i64) -> (r: Result<PieceRow, EditError<PlannerError>>)
        requires
            self.wf(),
        ensures
            r == (match self.doc().at(row_id) {
                Ok(row) => Ok::<PieceRow, EditError<PlannerError>>(row),
                Err(e) => Err(EditError::Store(e)),
            }),
            self.doc().after_read(row_id) == self.doc(),
            r is Ok ==> self.pieces@.contains_key(row_id) && r->Ok_0.id == row_id,
    {
        broadcast use vstd::std_specs::btree::group_btree_axioms;

        assert(self.doc().log =~= self.doc().after_read(row_id).log);

        match self.pieces.get(&row_id) {
            Some(row) => {
                assert(self.doc().loaded.insert(row_id) =~= self.doc().loaded);
                Ok(row.current)
            },
            None => Err(
                EditError::Store(
                    PlannerError::SnapshotInvariant(SnapshotFault::RowAbsent { row_id }),
                ),
            ),
        }
    }
}

impl PieceStore for WorkingCopy {
    proof fn lemma_endpoints_known(&self) {
    }

    fn store_head(&self) -> (id: i64) {
        self.head_id
    }

    fn store_tail(&self) -> (id: i64) {
        self.tail_id
    }

    fn store_set_head(&mut self, head_id: i64) {
        self.head_id = head_id;
    }

    fn store_set_tail(&mut self, tail_id: i64) {
        self.tail_id = tail_id;
    }

    fn store_set_prev(&mut self, row_id: i64, prev_id: i64) -> (r: Result<(), EditError<PlannerError>>) {
        let row = self.row_of(row_id)?;
        self.put_row(PieceRow { prev_id, ..row });
        Ok(())
    }

    fn store_set_next(&mut self, row_id: i64, next_id: i64) -> (r: Result<(), EditError<PlannerError>>) {
        let row = self.row_of(row_id)?;
        self.put_row(PieceRow { next_id, ..row });
        Ok(())
    }

    fn store_set_coord(&mut self, row_id: i64, coord: PieceCoord) -> (r: Result<
        (),
        EditError<PlannerError>,
    >) {
        let row = self.row_of(row_id)?;
        self.put_row(PieceRow { coord, ..row });
        Ok(())
    }

    fn store_insert_row(&mut self, row_id: i64, prev_id: i64, next_id: i64, coord: PieceCoord) -> (r: Result<
        (),
        EditError<PlannerError>,
    >) {
        broadcast use vstd::std_specs::btree::group_btree_axioms;

        if row_id <= 0 {
            return Err(EditError::Fault(EditFault::RowIdNotPositive { row_id }));
        }
        if self.pieces.contains_key(&row_id) {
            return Err(EditError::Fault(EditFault::DoubleAllocated { row_id }));
        }
        let row = PieceRow { id: row_id, list_number: self.list_number, prev_id, next_id, coord };
        let mut in_buffer: Vec<i64> = Vec::new();
        if let Some(ids) = self.buffer_id_index.get(&coord.buffer_id) {
            in_buffer.extend_from_slice(ids.as_slice());
        }
        assert(in_buffer@ =~= indexed(self.buffer_id_index@, coord.buffer_id));
        in_buffer.push(row_id);
        self.buffer_id_index.insert(coord.buffer_id, in_buffer);
        self.new_piece_ids.push(row_id);
        self.pieces.insert(row_id, StagedRow { current: row, original: None });
        proof {
            let after = old(self).doc().insert_new_row(row_id, prev_id, next_id, coord).0;
            assert(self.doc().row =~= after.row);
            assert(self.doc().base =~= after.base);
            assert(self.doc().candidates =~= after.candidates);
            assert(self.doc().loaded =~= after.loaded);
            let ids = old(self).new_piece_ids@;
            assert forall|x: i64| x != row_id implies #[trigger] ids.push(row_id).contains(x)
                == ids.contains(x) by {
                if ids.contains(x) {
                    assert(ids.push(row_id)[ids.index_of(x)] == x);
                }
            }
            assert(ids.push(row_id)[ids.len() as int] == row_id);
        }
        Ok(())
    }

    fn store_alloc_piece_id(&mut self) -> (r: Result<i64, EditError<PlannerError>>) {
        let id: i64 = self.next_piece_id;
        if id == i64::MAX {
            return Err(EditError::Fault(EditFault::PieceIdOverflow));
        }
        self.next_piece_id = id + 1;
        Ok(id)
    }

    fn piece_id_ceiling(&self) -> (cap: i64) {
        self.next_piece_id
    }

    fn record_clamp(&mut self, walk: ClampWalk) {
        self.trace.clamp_walks.push(walk);
    }
}

// ---------- taking a snapshot ----------

proof fn lemma_rows_fault_stop(list_number: i64, next_id: i64, rows: Seq<PieceRow>, n: int)
    requires
        0 <= n <= rows.len(),
        rows_fault(list_number, next_id, rows.take(n)) is Some,
    ensures
        rows_fault(list_number, next_id, rows) == rows_fault(list_number, next_id, rows.take(n)),
    decreases rows.len(),
{
    if n == rows.len() {
        assert(rows.take(n) =~= rows);
    } else {
        assert(rows.drop_last().take(n) =~= rows.take(n));
        lemma_rows_fault_stop(list_number, next_id, rows.drop_last(), n);
    }
}

proof fn lemma_buffers_fault_stop(next_id: i64, buffers: Seq<BufferMeta>, n: int)
    requires
        0 <= n <= buffers.len(),
        buffers_fault(next_id, buffers.take(n)) is Some,
    ensures
        buffers_fault(next_id, buffers) == buffers_fault(next_id, buffers.take(n)),
    decreases buffers.len(),
{
    if n == buffers.len() {
        assert(buffers.take(n) =~= buffers);
    } else {
        assert(buffers.drop_last().take(n) =~= buffers.take(n));
        lemma_buffers_fault_stop(next_id, buffers.drop_last(), n);
    }
}

proof fn lemma_first_fault_stop(ids: Seq<i64>, fault: spec_fn(i64) -> Option<PlannerError>, n: int)
    requires
        0 <= n <= ids.len(),
        first_fault(ids.take(n), fault) is Some,
    ensures
        first_fault(ids, fault) == first_fault(ids.take(n), fault),
    decreases ids.len(),
{
    if n == ids.len() {
        assert(ids.take(n) =~= ids);
    } else {
        assert(ids.drop_last().take(n) =~= ids.take(n));
        lemma_first_fault_stop(ids.drop_last(), fault, n);
    }
}

pub proof fn lemma_no_fault(ids: Seq<i64>, fault: spec_fn(i64) -> Option<PlannerError>)
    requires
        first_fault(ids, fault) is None,
    ensures
        forall|i: int| 0 <= i < ids.len() ==> fault(#[trigger] ids[i]) is None,
    decreases ids.len(),
{
    if ids.len() > 0 {
        lemma_no_fault(ids.drop_last(), fault);
        assert forall|i: int| 0 <= i < ids.len() implies fault(#[trigger] ids[i]) is None by {
            if i < ids.len() - 1 {
                assert(ids.drop_last()[i] == ids[i]);
            }
        }
    }
}

/// The rows as they are taken over: each is what it was.
spec fn taken_over(state: Map<i64, StagedRow>, rows: Map<i64, PieceRow>) -> bool {
    &&& state.dom() == rows.dom()
    &&& forall|id: i64| #[trigger]
        state.contains_key(id) ==> id > 0 && rows[id].id == id && state[id] == (StagedRow {
            current: rows[id],
            original: Some(rows[id]),
        })
}

/// Takes over the rows of a snapshot, and indexes them by buffer.
fn load_rows(pieces: &PieceSnapshot) -> (r: Result<
    (BTreeMap<i64, StagedRow>, BTreeMap<i64, Vec<i64>>),
    PlannerError,
>)
    ensures
        match rows_fault(pieces.list_number, pieces.pre_piece_next_id, pieces.pieces@) {
            Some(e) => r == Err::<
                (BTreeMap<i64, StagedRow>, BTreeMap<i64, Vec<i64>>),
                PlannerError,
            >(e),
            None => r matches Ok(loaded) && {
                &&& taken_over(loaded.0@, rows_by_id(pieces.pieces@))
                &&& forall|b: i64| #[trigger]
                    indexed(loaded.1@, b) == rows_in_buffer(pieces.pieces@, b)
            },
        },
{
    broadcast use vstd::std_specs::btree::group_btree_axioms;

    let mut state: BTreeMap<i64, StagedRow> = BTreeMap::new();
    let mut index: BTreeMap<i64, Vec<i64>> = BTreeMap::new();
    let ghost all = pieces.pieces@;
    let mut i: usize = 0;
    assert(all.take(0) =~= Seq::empty());
    while i < pieces.pieces.len()
        invariant
            i <= pieces.pieces.len(),
            all == pieces.pieces@,
            rows_fault(pieces.list_number, pieces.pre_piece_next_id, all.take(i as int)) is None,
            taken_over(state@, rows_by_id(all.take(i as int))),
            forall|b: i64| #[trigger] indexed(index@, b) == rows_in_buffer(all.take(i as int), b),
        decreases pieces.pieces.len() - i,
    {
        let row = pieces.pieces[i];
        let ghost seen = all.take(i + 1);
        let mut fault: Option<PlannerError> = None;
        if row.id <= 0 {
            fault = Some(
                PlannerError::SnapshotInvariant(SnapshotFault::RowIdNotPositive { row_id: row.id }),
            );
        } else if row.id >= pieces.pre_piece_next_id {
            fault = Some(
                PlannerError::SnapshotInvariant(
                    SnapshotFault::RowIdPastNext {
                        row_id: row.id,
                        next_id: pieces.pre_piece_next_id,
                    },
                ),
            );
        } else if row.list_number != pieces.list_number {
            fault = Some(
                PlannerError::ListMismatch {
                    row_id: row.id,
                    expected_list: pieces.list_number,
                    found_list: row.list_number,
                },
            );
        } else if row.coord.len_bytes == 0 {
            fault = Some(
                PlannerError::SnapshotInvariant(SnapshotFault::ZeroLength { row_id: row.id }),
            );
        } else if state.contains_key(&row.id) {
            fault = Some(
                PlannerError::SnapshotInvariant(SnapshotFault::DuplicateRow { row_id: row.id }),
            );
        }
        proof {
            assert(seen.drop_last() =~= all.take(i as int));
            assert(seen.last() == row);
            assert(state@.dom().contains(row.id) == rows_by_id(all.take(i as int)).dom().contains(row.id));
            assert(rows_fault(pieces.list_number, pieces.pre_piece_next_id, seen) == fault);
        }
        if let Some(e) = fault {
            proof {
                lemma_rows_fault_stop(pieces.list_number, pieces.pre_piece_next_id, all, i + 1);
            }
            return Err(e);
        }
        let ghost before = index@;
        state.insert(row.id, StagedRow { current: row, original: Some(row) });
        let mut in_buffer: Vec<i64> = Vec::new();
        if let Some(ids) = index.get(&row.coord.buffer_id) {
            in_buffer.extend_from_slice(ids.as_slice());
        }
        assert(in_buffer@ =~= indexed(before, row.coord.buffer_id));
        in_buffer.push(row.id);
        index.insert(row.coord.buffer_id, in_buffer);
        proof {
            assert(state@.dom() =~= rows_by_id(seen).dom());
            assert forall|b: i64| #[trigger] indexed(index@, b) == rows_in_buffer(seen, b) by {
                assert(indexed(before, b) == rows_in_buffer(all.take(i as int), b));
            }
        }
        i = i + 1;
    }
    assert(all.take(i as int) =~= all);
    Ok((state, index))
}

fn check_endpoints(state: &BTreeMap<i64, StagedRow>, head_id: i64, tail_id: i64, Ghost(rows): Ghost<
    Map<i64, PieceRow>,
>) -> (r: Result<(), PlannerError>)
    requires
        taken_over(state@, rows),
    ensures
        r == (match endpoints_fault(rows, head_id, tail_id) {
            Some(e) => Err::<(), PlannerError>(e),
            None => Ok(()),
        }),
{
    broadcast use vstd::std_specs::btree::group_btree_axioms;

    assert(state@.dom().contains(head_id) == rows.dom().contains(head_id));
    assert(state@.dom().contains(tail_id) == rows.dom().contains(tail_id));
    if head_id != 0 {
        match state.get(&head_id) {
            None => {
                return Err(PlannerError::SnapshotInvariant(SnapshotFault::HeadAbsent { head_id }));
            },
            Some(head) => {
                if head.current.prev_id != 0 {
                    return Err(
                        PlannerError::SnapshotInvariant(
                            SnapshotFault::HeadHasPrev { head_id, prev_id: head.current.prev_id },
                        ),
                    );
                }
            },
        }
    }
    if tail_id != 0 {
        match state.get(&tail_id) {
            None => {
                return Err(PlannerError::SnapshotInvariant(SnapshotFault::TailAbsent { tail_id }));
            },
            Some(tail) => {
                if tail.current.next_id != 0 {
                    return Err(
                        PlannerError::SnapshotInvariant(
                            SnapshotFault::TailHasNext { tail_id, next_id: tail.current.next_id },
                        ),
                    );
                }
            },
        }
    }
    if (head_id == 0) != (tail_id == 0) {
        return Err(PlannerError::SnapshotInvariant(SnapshotFault::EndpointsDisagree));
    }
    Ok(())
}

fn row_links_fault(
    state: &BTreeMap<i64, StagedRow>,
    head_id: i64,
    tail_id: i64,
    row: &PieceRow,
    Ghost(rows): Ghost<Map<i64, PieceRow>>,
) -> (fault: Option<PlannerError>)
    requires
        taken_over(state@, rows),
    ensures
        fault == links_fault(rows, head_id, tail_id, *row),
{
    broadcast use vstd::std_specs::btree::group_btree_axioms;

    assert(state@.dom().contains(row.prev_id) == rows.dom().contains(row.prev_id));
    assert(state@.dom().contains(row.next_id) == rows.dom().contains(row.next_id));
    let row_id: i64 = row.id;
    if row.prev_id != 0 {
        match state.get(&row.prev_id) {
            None => {
                return Some(
                    PlannerError::SnapshotInvariant(
                        SnapshotFault::PrevAbsent { row_id, prev_id: row.prev_id },
                    ),
                );
            },
            Some(prev) => {
                if prev.current.next_id != row.id {
                    return Some(
                        PlannerError::SnapshotInvariant(SnapshotFault::LinksInconsistent { row_id }),
                    );
                }
            },
        }
    } else if row.id != head_id {
        return Some(PlannerError::SnapshotInvariant(SnapshotFault::NotHead { row_id }));
    }
    if row.next_id != 0 {
        match state.get(&row.next_id) {
            None => {
                return Some(
                    PlannerError::SnapshotInvariant(
                        SnapshotFault::NextAbsent { row_id, next_id: row.next_id },
                    ),
                );
            },
            Some(next) => {
                if next.current.prev_id != row.id {
                    return Some(
                        PlannerError::SnapshotInvariant(SnapshotFault::LinksInconsistent { row_id }),
                    );
                }
            },
        }
    } else if row.id != tail_id {
        return Some(PlannerError::SnapshotInvariant(SnapshotFault::NotTail { row_id }));
    }
    None
}

/// Checks that the rows' pointers agree with each other and with the endpoints.
fn check_links(
    state: &BTreeMap<i64, StagedRow>,
    ids: &Vec<i64>,
    head_id: i64,
    tail_id: i64,
    Ghost(rows): Ghost<Map<i64, PieceRow>>,
) -> (r: Result<(), PlannerError>)
    requires
        taken_over(state@, rows),
        forall|i: int| 0 <= i < ids.len() ==> rows.contains_key(#[trigger] ids@[i]),
    ensures
        r == (match first_fault(ids@, |id: i64| links_fault(rows, head_id, tail_id, rows[id])) {
            Some(e) => Err::<(), PlannerError>(e),
            None => Ok(()),
        }),
{
    broadcast use vstd::std_specs::btree::group_btree_axioms;

    let ghost fault = |id: i64| links_fault(rows, head_id, tail_id, rows[id]);
    let mut i: usize = 0;
    while i < ids.len()
        invariant
            i <= ids.len(),
            taken_over(state@, rows),
            forall|i: int| 0 <= i < ids.len() ==> rows.contains_key(#[trigger] ids@[i]),
            fault == (|id: i64| links_fault(rows, head_id, tail_id, rows[id])),
            first_fault(ids@.take(i as int), fault) is None,
        decreases ids.len() - i,
    {
        proof {
            assert(ids@.take(i + 1).drop_last() =~= ids@.take(i as int));
            assert(rows.dom().contains(ids@[i as int]));
        }
        if let Some(row) = state.get(&ids[i]) {
            if let Some(e) = row_links_fault(state, head_id, tail_id, &row.current, Ghost(rows)) {
                proof {
                    lemma_first_fault_stop(ids@, fault, i + 1);
                }
                return Err(e);
            }
        }
        i = i + 1;
    }
    assert(ids@.take(i as int) =~= ids@);
    Ok(())
}

/// Takes over the lengths of a snapshot's buffers.
fn load_buffers(buffers: &BufferSnapshot) -> (r: Result<BTreeMap<i64, u32>, PlannerError>)
    ensures
        match buffers_fault(buffers.pre_buffers_next_id, buffers.buffers@) {
            Some(e) => r == Err::<BTreeMap<i64, u32>, PlannerError>(e),
            None => r matches Ok(lengths) && lengths@ == lengths_by_id(buffers.buffers@),
        },
{
    broadcast use vstd::std_specs::btree::group_btree_axioms;

    let mut lengths: BTreeMap<i64, u32> = BTreeMap::new();
    let ghost all = buffers.buffers@;
    let mut i: usize = 0;
    assert(all.take(0) =~= Seq::empty());
    while i < buffers.buffers.len()
        invariant
            i <= buffers.buffers.len(),
            all == buffers.buffers@,
            buffers_fault(buffers.pre_buffers_next_id, all.take(i as int)) is None,
            lengths@ == lengths_by_id(all.take(i as int)),
        decreases buffers.buffers.len() - i,
    {
        let buffer = &buffers.buffers[i];
        let ghost seen = all.take(i + 1);
        let mut fault: Option<PlannerError> = None;
        if buffer.id <= 0 {
            fault = Some(
                PlannerError::SnapshotInvariant(
                    SnapshotFault::BufferIdNotPositive { buffer_id: buffer.id },
                ),
            );
        } else if buffer.id >= buffers.pre_buffers_next_id {
            fault = Some(
                PlannerError::SnapshotInvariant(
                    SnapshotFault::BufferIdPastNext {
                        buffer_id: buffer.id,
                        next_id: buffers.pre_buffers_next_id,
                    },
                ),
            );
        } else if buffer.len_bytes == 0 || buffer.len_bytes > MAX_BUFFER_LEN_BYTES {
            fault = Some(
                PlannerError::SnapshotInvariant(
                    SnapshotFault::BufferLength { buffer_id: buffer.id, len_bytes: buffer.len_bytes },
                ),
            );
        } else if lengths.contains_key(&buffer.id) {
            fault = Some(
                PlannerError::SnapshotInvariant(
                    SnapshotFault::DuplicateBuffer { buffer_id: buffer.id },
                ),
            );
        }
        proof {
            assert(seen.drop_last() =~= all.take(i as int));
            assert(seen.last() == *buffer);
            assert(buffers_fault(buffers.pre_buffers_next_id, seen) == fault);
        }
        if let Some(e) = fault {
            proof {
                lemma_buffers_fault_stop(buffers.pre_buffers_next_id, all, i + 1);
            }
            return Err(e);
        }
        lengths.insert(buffer.id, buffer.len_bytes);
        i = i + 1;
    }
    assert(all.take(i as int) =~= all);
    Ok(lengths)
}

/// Checks that the rows lie in the buffers.
fn check_ranges(
    state: &BTreeMap<i64, StagedRow>,
    ids: &Vec<i64>,
    lengths: &BTreeMap<i64, u32>,
    Ghost(rows): Ghost<Map<i64, PieceRow>>,
) -> (r: Result<(), PlannerError>)
    requires
        taken_over(state@, rows),
        forall|i: int| 0 <= i < ids.len() ==> rows.contains_key(#[trigger] ids@[i]),
    ensures
        r == (match first_fault(ids@, |id: i64| range_fault(lengths@, rows[id])) {
            Some(e) => Err::<(), PlannerError>(e),
            None => Ok(()),
        }),
{
    broadcast use vstd::std_specs::btree::group_btree_axioms;

    let ghost fault = |id: i64| range_fault(lengths@, rows[id]);
    let mut i: usize = 0;
    while i < ids.len()
        invariant
            i <= ids.len(),
            taken_over(state@, rows),
            forall|i: int| 0 <= i < ids.len() ==> rows.contains_key(#[trigger] ids@[i]),
            fault == (|id: i64| range_fault(lengths@, rows[id])),
            first_fault(ids@.take(i as int), fault) is None,
        decreases ids.len() - i,
    {
        proof {
            assert(ids@.take(i + 1).drop_last() =~= ids@.take(i as int));
            assert(rows.dom().contains(ids@[i as int]));
            if fault(ids@[i as int]) is Some {
                lemma_first_fault_stop(ids@, fault, i + 1);
            }
        }
        if let Some(row) = state.get(&ids[i]) {
            let row_id: i64 = row.current.id;
            let coord = row.current.coord;
            let len_bytes: u32 = match lengths.get(&coord.buffer_id) {
                Some(len_bytes) => *len_bytes,
                None => {
                    return Err(
                        PlannerError::SnapshotInvariant(
                            SnapshotFault::BufferAbsent { row_id, buffer_id: coord.buffer_id },
                        ),
                    );
                },
            };
            let end: u32 = match coord.start_byte.checked_add(coord.len_bytes) {
                Some(end) => end,
                None => {
                    return Err(
                        PlannerError::SnapshotInvariant(SnapshotFault::RangeOverflow { row_id }),
                    );
                },
            };
            if end > len_bytes {
                return Err(
                    PlannerError::SnapshotInvariant(
                        SnapshotFault::RangePastBuffer {
                            row_id,
                            buffer_id: coord.buffer_id,
                            end,
                            len_bytes,
                        },
                    ),
                );
            }
        }
        i = i + 1;
    }
    assert(ids@.take(i as int) =~= ids@);
    Ok(())
}

impl WorkingCopy {
    /// Takes over a snapshot, once everything in it has been found consistent.
    pub fn from_snapshot(pieces: &PieceSnapshot, buffers: &BufferSnapshot) -> (r: Result<
        Self,
        PlannerError,
    >)
        ensures
            match snapshot_fault(*pieces, *buffers) {
                Some(e) => r == Err::<Self, PlannerError>(e),
                None => r matches Ok(wc) && {
                    &&& wc.wf()
                    &&& wc.doc() == snapshot_doc(*pieces)
                    &&& wc.rest() == lengths_by_id(buffers.buffers@)
                    &&& wc.doc().ranges_fit()
                },
            },
    {
        if pieces.pre_piece_next_id < 1 {
            return Err(PlannerError::SnapshotInvariant(SnapshotFault::PieceNextId));
        }
        if buffers.pre_buffers_next_id < 1 {
            return Err(PlannerError::SnapshotInvariant(SnapshotFault::BuffersNextId));
        }
        if pieces.list_number <= 0 {
            return Err(PlannerError::SnapshotInvariant(SnapshotFault::ListNumber));
        }
        let ghost rows = rows_by_id(pieces.pieces@);
        let (state, index) = load_rows(pieces)?;
        check_endpoints(&state, pieces.head_id, pieces.tail_id, Ghost(rows))?;
        let ids = found_ids(&state);
        proof {
            let present = |id: i64| rows.contains_key(id);
            let staged = |id: i64| found(state@, id);
            assert forall|id: i64| present(id) == #[trigger] staged(id) by {
                assert(state@.dom().contains(id) == rows.dom().contains(id));
            }
            assert(present =~= staged);
            lemma_ids_below(present, i64::MAX + 1);
        }
        check_links(&state, &ids, pieces.head_id, pieces.tail_id, Ghost(rows))?;
        let lengths = load_buffers(buffers)?;
        check_ranges(&state, &ids, &lengths, Ghost(rows))?;
        let wc = WorkingCopy {
            list_number: pieces.list_number,
            head_id: pieces.head_id,
            tail_id: pieces.tail_id,
            pieces: state,
            buffer_id_index: index,
            next_piece_id: pieces.pre_piece_next_id,
            new_piece_ids: Vec::new(),
            buffers: lengths,
            trace: PlannerTrace::default(),
        };
        proof {
            let doc = snapshot_doc(*pieces);
            assert forall|id: i64| #[trigger] rows.contains_key(id) == wc.pieces@.contains_key(id) by {
                assert(wc.pieces@.dom().contains(id) == rows.dom().contains(id));
            }
            assert(wc.doc().row =~= doc.row);
            assert(wc.doc().base =~= doc.base);
            assert forall|b: i64| #[trigger] (wc.doc().candidates)(b) == (doc.candidates)(b) by {
                assert(indexed(wc.buffer_id_index@, b) == rows_in_buffer(pieces.pieces@, b));
            }
            assert(wc.doc().candidates =~= doc.candidates);
            let fault = |id: i64| range_fault(wc.buffers@, rows[id]);
            lemma_no_fault(ids@, fault);
            assert forall|id: i64| (#[trigger] wc.doc().at(id)) is Ok implies wc.doc().at(
                id,
            )->Ok_0.coord.end() <= u32::MAX by {
                assert(rows.contains_key(id));
                assert(ids@.contains(id));
                assert(fault(ids@[ids@.index_of(id)]) is None);
            }
        }
        Ok(wc)
    }
}

// ---------- planning ----------

/// The state of a plan between two operations of the edit.
pub struct PlanState {
    pub doc: Doc<PlannerError>,
    /// The lengths of the buffers that were there before the edit.
    pub known: Map<i64, u32>,
    pub owner: AddressView,
    pub author_id: i64,
    pub buffers: Seq<BufferInsertView>,
    pub next_buffer_id: i64,
    /// The buffers that the edit has added.
    pub allocated: Set<i64>,
}

/// A coordinate must lie in a buffer that was there before the edit.
pub open spec fn unknown_buffer(known: Map<i64, u32>, coord: BufferCoord) -> Option<PlannerError> {
    if coord.buffer_id == 0 {
        None
    } else if coord.buffer_id < 0 {
        Some(
            PlannerError::InvalidCoordinate(
                EditFault::BufferNotPositive { buffer_id: coord.buffer_id },
            ),
        )
    } else if !known.contains_key(coord.buffer_id) {
        Some(PlannerError::BufferNotFound { buffer_id: coord.buffer_id })
    } else {
        None
    }
}

impl PlanState {
    pub open spec fn fail(self, fault: EditFault) -> (PlanState, Result<(), PlannerError>) {
        (self, Err(fault_error(fault)))
    }

    /// The state with one more buffer.
    pub open spec fn with_buffer(self, inserted: InsertedBufferManifest) -> PlanState {
        PlanState {
            next_buffer_id: (self.next_buffer_id + 1) as i64,
            buffers: self.buffers.push(
                BufferInsertView {
                    new_id: self.next_buffer_id,
                    owner: self.owner,
                    author_id: self.author_id,
                    len_bytes: inserted.len_bytes,
                    ciphertext_value_hash: inserted.ciphertext_value_hash,
                },
            ),
            allocated: self.allocated.insert(self.next_buffer_id),
            ..self
        }
    }

    pub open spec fn insert(self, index: int, at: BufferCoord, inserted: InsertedBufferManifest) -> (
        PlanState,
        Result<(), PlannerError>,
    ) {
        match same_edit_fault(self.allocated, index, EndpointRole::Insert, at) {
            Some(f) => self.fail(f),
            None => match unknown_buffer(self.known, at) {
                Some(e) => (self, Err(e)),
                None => if self.next_buffer_id == i64::MAX {
                    self.fail(EditFault::BufferIdOverflow)
                } else {
                    let staged = self.with_buffer(inserted);
                    match insert_len_fault(inserted.len_bytes) {
                        Some(f) => staged.fail(f),
                        None => {
                            let coord = whole_buffer(self.next_buffer_id, inserted.len_bytes);
                            let (doc, r) = insert_piece(self.doc, at, coord);
                            (PlanState { doc, ..staged }, planner_result(r))
                        },
                    }
                },
            },
        }
    }

    pub open spec fn delete(self, index: int, start: BufferCoord, end: BufferCoord) -> (
        PlanState,
        Result<(), PlannerError>,
    ) {
        match same_edit_fault(self.allocated, index, EndpointRole::DeleteStart, start) {
            Some(f) => self.fail(f),
            None => match same_edit_fault(self.allocated, index, EndpointRole::DeleteEnd, end) {
                Some(f) => self.fail(f),
                None => match unknown_buffer(self.known, start) {
                    Some(e) => (self, Err(e)),
                    None => match unknown_buffer(self.known, end) {
                        Some(e) => (self, Err(e)),
                        None => {
                            let (doc, r) = delete_text(self.doc, start, end);
                            (PlanState { doc, ..self }, planner_result(r))
                        },
                    },
                },
            },
        }
    }

    /// One operation of an edit.
    #[verifier::opaque]
    pub open spec fn step(self, index: int, op: PieceTextEditItemManifest) -> (
        PlanState,
        Result<(), PlannerError>,
    ) {
        match op {
            PieceTextEditItemManifest::Insert { at, inserted } => self.insert(index, at, inserted),
            PieceTextEditItemManifest::Delete { start, end } => self.delete(index, start, end),
        }
    }

    /// Operations in their order, up to the first that fails.
    pub open spec fn steps(self, ops: Seq<PieceTextEditItemManifest>) -> (
        PlanState,
        Result<(), PlannerError>,
    )
        decreases ops.len(),
    {
        if ops.len() == 0 {
            (self, Ok(()))
        } else {
            let (before, r) = self.steps(ops.drop_last());
            match r {
                Err(e) => (before, Err(e)),
                Ok(_) => before.step(ops.len() - 1, ops.last()),
            }
        }
    }
}

proof fn lemma_plan_stop(state: PlanState, ops: Seq<PieceTextEditItemManifest>, n: int)
    requires
        0 <= n <= ops.len(),
        state.steps(ops.take(n)).1 is Err,
    ensures
        state.steps(ops) == state.steps(ops.take(n)),
    decreases ops.len(),
{
    if n == ops.len() {
        assert(ops.take(n) =~= ops);
    } else {
        assert(ops.drop_last().take(n) =~= ops.take(n));
        lemma_plan_stop(state, ops.drop_last(), n);
    }
}

/// The state that a plan starts from.
pub open spec fn plan_start(input: PlannerInput) -> PlanState {
    PlanState {
        doc: snapshot_doc(input.pieces),
        known: lengths_by_id(input.buffers.buffers@),
        owner: input.envelope.address@,
        author_id: input.author_id,
        buffers: Seq::empty(),
        next_buffer_id: input.buffers.pre_buffers_next_id,
        allocated: Set::empty(),
    }
}

/// The writes of an edit on a snapshot, or why it cannot be planned.
pub open spec fn plan(input: PlannerInput) -> Result<OutputView, PlannerError> {
    match snapshot_fault(input.pieces, input.buffers) {
        Some(e) => Err(e),
        None => {
            let (state, r) = plan_start(input).steps(input.envelope.edit.ops@);
            match r {
                Err(e) => Err(e),
                Ok(_) => Ok(
                    edit_output(
                        state.doc,
                        input.pieces.head_id,
                        input.pieces.tail_id,
                        state.buffers,
                        state.next_buffer_id,
                        Seq::empty(),
                    ),
                ),
            }
        },
    }
}

/// A plan in the making.
struct Plan<'a> {
    wc: WorkingCopy,
    envelope: &'a PieceTextEditEnvelopeV1,
    author_id: i64,
    buffer_inserts: Vec<BufferRowInsert>,
    next_buffer_id: i64,
    allocated_buffer_ids: HashSet<i64>,
}

impl<'a> Plan<'a> {
    spec fn state(&self) -> PlanState {
        PlanState {
            doc: self.wc.doc(),
            known: self.wc.rest(),
            owner: self.envelope.address@,
            author_id: self.author_id,
            buffers: buffer_inserts_view(self.buffer_inserts@),
            next_buffer_id: self.next_buffer_id,
            allocated: self.allocated_buffer_ids@,
        }
    }

    spec fn ready(&self) -> bool {
        self.wc.wf() && self.wc.doc().ranges_fit()
    }

    fn check_same_edit(&self, index: usize, role: EndpointRole, coord: BufferCoord) -> (r: Result<
        (),
        PlannerError,
    >)
        ensures
            r == (match same_edit_fault(self.state().allocated, index as int, role, coord) {
                Some(f) => Err::<(), PlannerError>(fault_error(f)),
                None => Ok(()),
            }),
    {
        broadcast use vstd::std_specs::hash::group_hash_axioms;

        if coord.buffer_id != 0 && self.allocated_buffer_ids.contains(&coord.buffer_id) {
            return Err(
                PlannerError::InvalidCoordinate(
                    EditFault::SameEditBuffer { index, role, buffer_id: coord.buffer_id },
                ),
            );
        }
        Ok(())
    }

    fn require_buffer(&self, coord: BufferCoord) -> (r: Result<(), PlannerError>)
        ensures
            r == (match unknown_buffer(self.state().known, coord) {
                Some(e) => Err::<(), PlannerError>(e),
                None => Ok(()),
            }),
    {
        broadcast use vstd::std_specs::btree::group_btree_axioms;

        let buffer_id: i64 = coord.buffer_id;
        if buffer_id < 0 {
            return Err(
                PlannerError::InvalidCoordinate(EditFault::BufferNotPositive { buffer_id }),
            );
        }
        if buffer_id != 0 && !self.wc.buffers.contains_key(&buffer_id) {
            return Err(PlannerError::BufferNotFound { buffer_id });
        }
        Ok(())
    }

    fn apply_insert(&mut self, index: usize, at: BufferCoord, inserted: &InsertedBufferManifest) -> (r: Result<
        (),
        PlannerError,
    >)
        requires
            old(self).ready(),
        ensures
            (final(self).state(), r) == old(self).state().insert(index as int, at, *inserted),
            final(self).wc.wf(),
            r is Ok ==> final(self).ready(),
    {
        broadcast use vstd::std_specs::hash::group_hash_axioms;

        self.check_same_edit(index, EndpointRole::Insert, at)?;
        self.require_buffer(at)?;
        let new_buffer_id: i64 = self.next_buffer_id;
        if new_buffer_id == i64::MAX {
            return Err(PlannerError::InvalidEdit(EditFault::BufferIdOverflow));
        }
        self.next_buffer_id = new_buffer_id + 1;
        self.allocated_buffer_ids.insert(new_buffer_id);
        self.buffer_inserts.push(
            BufferRowInsert {
                new_id: new_buffer_id,
                owner_table: self.envelope.address.table.clone(),
                owner_row_id: self.envelope.address.row_id,
                owner_column: self.envelope.address.column.clone(),
                author_id: self.author_id,
                len_bytes: inserted.len_bytes,
                ciphertext_value_hash: inserted.ciphertext_value_hash,
            },
        );
        assert(self.state().buffers =~= old(self).state().with_buffer(*inserted).buffers);
        if inserted.len_bytes == 0 {
            return Err(PlannerError::InvalidEdit(EditFault::EmptyInsert));
        }
        if inserted.len_bytes > MAX_BUFFER_LEN_BYTES {
            return Err(
                PlannerError::InvalidEdit(
                    EditFault::InsertTooLong { len_bytes: inserted.len_bytes },
                ),
            );
        }
        let coord = PieceCoord {
            buffer_id: new_buffer_id,
            start_byte: 0,
            len_bytes: inserted.len_bytes,
            tombstone: false,
        };
        to_planner_result(apply_insert_to_store(&mut self.wc, at, coord))
    }

    fn apply_delete(&mut self, index: usize, start: BufferCoord, end: BufferCoord) -> (r: Result<
        (),
        PlannerError,
    >)
        requires
            old(self).ready(),
        ensures
            (final(self).state(), r) == old(self).state().delete(index as int, start, end),
            final(self).wc.wf(),
            r is Ok ==> final(self).ready(),
    {
        self.check_same_edit(index, EndpointRole::DeleteStart, start)?;
        self.check_same_edit(index, EndpointRole::DeleteEnd, end)?;
        self.require_buffer(start)?;
        self.require_buffer(end)?;
        to_planner_result(apply_delete_to_store(&mut self.wc, start, end))
    }

    fn apply_op(&mut self, index: usize, op: &PieceTextEditItemManifest) -> (r: Result<(), PlannerError>)
        requires
            old(self).ready(),
        ensures
            (final(self).state(), r) == old(self).state().step(index as int, *op),
            final(self).wc.wf(),
            r is Ok ==> final(self).ready(),
    {
        reveal(PlanState::step);
        match *op {
            PieceTextEditItemManifest::Insert { at, inserted } => self.apply_insert(index, at, &inserted),
            PieceTextEditItemManifest::Delete { start, end } => self.apply_delete(index, start, end),
        }
    }

    fn apply_ops(&mut self, ops: &Vec<PieceTextEditItemManifest>) -> (r: Result<(), PlannerError>)
        requires
            old(self).ready(),
        ensures
            (final(self).state(), r) == old(self).state().steps(ops@),
            final(self).wc.wf(),
            r is Ok ==> final(self).ready(),
    {
        let ghost state = self.state();
        let mut done: Result<(), PlannerError> = Ok(());
        let mut i: usize = 0;
        while i < ops.len()
            invariant
                i <= ops.len(),
                state == old(self).state(),
                self.ready(),
                done is Ok,
                state.steps(ops@.take(i as int)) == (self.state(), done),
            decreases ops.len() - i,
        {
            proof {
                let seen = ops@.take(i + 1);
                assert(seen.drop_last() =~= ops@.take(i as int));
                assert(seen.last() == ops@[i as int]);
                assert(state.steps(seen) == self.state().step(i as int, ops@[i as int]));
            }
            done = self.apply_op(i, &ops[i]);
            if done.is_err() {
                proof {
                    lemma_plan_stop(state, ops@, i + 1);
                }
                return done;
            }
            i = i + 1;
        }
        assert(ops@.take(i as int) =~= ops@);
        done
    }
}

impl WorkingCopy {
    proof fn lemma_output(&self)
        requires
            self.wf(),
        ensures
            self.doc().piece_updates() == crate::piece_text_staging::row_changes(
                staged_pairs(self.pieces@),
            ),
            self.doc().piece_inserts() == self.new_piece_ids@.map_values(
                |id: i64| crate::piece_text_staging::row_insert(self.pieces@[id].current),
            ),
    {
        let doc = self.doc();
        let known = |id: i64| doc.loaded.contains(id) && !doc.new_ids.contains(id);
        let staged = |id: i64| found(self.pieces@, id);
        assert(known =~= staged);
        lemma_ids_below(staged, i64::MAX + 1);
        let ids = ids_where(staged);
        assert(ids.map_values(|id: i64| ((doc.base)(id)->Ok_0, doc.at(id)->Ok_0)) =~= staged_pairs(
            self.pieces@,
        )) by {
            assert forall|i: int| 0 <= i < ids.len() implies found(self.pieces@, #[trigger] ids[i]) by {
                assert(staged(ids[i]));
            }
        }
        assert(doc.piece_inserts() =~= self.new_piece_ids@.map_values(
            |id: i64| crate::piece_text_staging::row_insert(self.pieces@[id].current),
        ));
    }
}

/// Plans an edit on a snapshot of a document.
pub fn plan_edit(input: PlannerInput<'_>) -> (r: Result<PlannerOutput, PlannerError>)
    ensures
        match plan(input) {
            Ok(output) => r matches Ok(out) && out@ == output,
            Err(e) => r == Err::<PlannerOutput, PlannerError>(e),
        },
{
    broadcast use vstd::std_specs::hash::group_hash_axioms;

    let wc = WorkingCopy::from_snapshot(&input.pieces, &input.buffers)?;
    let mut plan = Plan {
        wc,
        envelope: input.envelope,
        author_id: input.author_id,
        buffer_inserts: Vec::new(),
        next_buffer_id: input.buffers.pre_buffers_next_id,
        allocated_buffer_ids: HashSet::new(),
    };
    proof {
        assert(plan.state().buffers =~= Seq::empty());
        assert(plan.state() == plan_start(input));
    }
    plan.apply_ops(&input.envelope.edit.ops)?;
    proof {
        plan.wc.lemma_output();
    }
    Ok(
        PlannerOutput {
            piece_inserts: staged_inserts(&plan.wc.pieces, &plan.wc.new_piece_ids),
            piece_updates: staged_updates(&plan.wc.pieces),
            head_update: if plan.wc.head_id != input.pieces.head_id {
                Some(plan.wc.head_id)
            } else {
                None
            },
            tail_update: if plan.wc.tail_id != input.pieces.tail_id {
                Some(plan.wc.tail_id)
            } else {
                None
            },
            piece_next_id_post: if plan.wc.new_piece_ids.len() > 0 {
                Some(plan.wc.next_piece_id)
            } else {
                None
            },
            buffers_next_id_post: if plan.buffer_inserts.len() > 0 {
                Some(plan.next_buffer_id)
            } else {
                None
            },
            buffer_inserts: plan.buffer_inserts,
            trace: PlannerTrace {
                authenticated_piece_coords: Vec::new(),
                index_lookups: plan.wc.trace.index_lookups,
                clamp_walks: plan.wc.trace.clamp_walks,
            },
        },
    )
}

} // verus!
