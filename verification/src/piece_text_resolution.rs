//! Resolution of byte coordinates to rows of a document's chain.
//!
//! [`Doc`] is the mathematical view of a document that rows are read from; the
//! functions below say, for every document, well linked or not, which row a
//! coordinate resolves to and what is read on the way.

use vstd::prelude::*;

use crate::faults::EditFault;
use crate::piece_text::BufferCoord;
use crate::piece_text_planner::{ClampDirection, ClampWalk, PieceRow, ResolvePurpose};
use crate::storage::ReadOpView;

verus! {

#[derive(Clone, Copy, Debug, PartialEq, Eq, Structural)]
pub enum ResolveEndpoint {
    Head,
    Tail,
}

/// Where a coordinate lies.
#[derive(Clone, Copy, Debug, PartialEq, Eq, Structural)]
pub enum ResolveCoreResult {
    DocumentStart { head_id: i64 },
    InRow { row: PieceRow, offset: u32 },
    ClampedToRow { row: PieceRow, start_row_id: i64, direction: ClampDirection, hops: u32 },
    ClampedBeforeHead { head_id: i64, start_row_id: i64, direction: ClampDirection, hops: u32 },
    ClampedAfterTail { tail_id: i64, start_row_id: i64, direction: ClampDirection, hops: u32 },
}

#[derive(Clone, Copy, Debug, PartialEq, Eq, Structural)]
pub struct ResolveCoreOutput {
    pub result: ResolveCoreResult,
    pub candidate_count: usize,
}

/// An error of a store that rows are read from, or a fault found in the rows.
#[derive(Clone, Debug, PartialEq, Eq)]
pub enum EditError<E> {
    Store(E),
    Fault(EditFault),
}

/// The bytes of its buffer that a row covers.
#[derive(Clone, Copy, Debug, PartialEq, Eq, Structural)]
pub struct Span {
    pub start: u32,
    pub end: u32,
    pub id: i64,
}

/// The reads of the tree that it takes to get at a document.
pub struct ReadCosts {
    pub row: spec_fn(i64) -> Seq<ReadOpView>,
    pub buffer: spec_fn(i64) -> Seq<ReadOpView>,
    pub endpoint: spec_fn(ResolveEndpoint) -> Seq<ReadOpView>,
    /// Nothing that was read is read again.
    pub once: bool,
}

/// A document in memory takes no reads.
pub open spec fn no_costs() -> ReadCosts {
    ReadCosts {
        row: |id: i64| Seq::empty(),
        buffer: |b: i64| Seq::empty(),
        endpoint: |e: ResolveEndpoint| Seq::empty(),
        once: true,
    }
}

/// A document as its rows are seen during one edit.
///
/// `row` and `candidates` give the current value of a row and the rows of a
/// buffer; `base` gives the value that a row had before the edit. `loaded` holds
/// the rows read so far, `new_ids` those that the edit has added, in order. `log`
/// holds the reads of the tree that were made for it.
pub struct Doc<E> {
    pub list_number: i64,
    pub row: spec_fn(i64) -> Result<PieceRow, E>,
    pub base: spec_fn(i64) -> Result<PieceRow, E>,
    pub candidates: spec_fn(i64) -> Result<Seq<i64>, E>,
    pub head: Result<i64, E>,
    pub tail: Result<i64, E>,
    pub next_piece_id: i64,
    pub new_ids: Seq<i64>,
    pub loaded: Set<i64>,
    pub lookups: Seq<(i64, Seq<i64>)>,
    pub clamps: Seq<ClampWalk>,
    pub costs: ReadCosts,
    pub log: Seq<ReadOpView>,
}

/// One of the lookups is of the buffer.
pub open spec fn holds_lookup(lookups: Seq<(i64, Seq<i64>)>, buffer_id: i64) -> bool {
    exists|i: int| 0 <= i < lookups.len() && (#[trigger] lookups[i]).0 == buffer_id
}

impl<E> Doc<E> {
    /// The current value of a row.
    pub open spec fn at(self, row_id: i64) -> Result<PieceRow, E> {
        (self.row)(row_id)
    }

    pub open spec fn endpoint(self, endpoint: ResolveEndpoint) -> Result<i64, E> {
        match endpoint {
            ResolveEndpoint::Head => self.head,
            ResolveEndpoint::Tail => self.tail,
        }
    }

    /// Every row is found under its own id.
    pub open spec fn ids_match(self) -> bool {
        forall|id: i64| (#[trigger] self.at(id)) is Ok ==> self.at(id)->Ok_0.id == id
    }

    /// No row's range runs past the last byte position.
    pub open spec fn ranges_fit(self) -> bool {
        forall|id: i64| (#[trigger] self.at(id)) is Ok ==> self.at(id)->Ok_0.coord.end() <= u32::MAX
    }

    /// The rows of a buffer were looked up before.
    pub open spec fn looked_up(self, buffer_id: i64) -> bool {
        holds_lookup(self.lookups, buffer_id)
    }

    /// The reads that it takes to read a row now.
    pub open spec fn row_cost(self, row_id: i64) -> Seq<ReadOpView> {
        if self.costs.once && self.loaded.contains(row_id) {
            Seq::empty()
        } else {
            (self.costs.row)(row_id)
        }
    }

    /// The reads that it takes to look the rows of a buffer up now.
    pub open spec fn buffer_cost(self, buffer_id: i64) -> Seq<ReadOpView> {
        if self.costs.once && self.looked_up(buffer_id) {
            Seq::empty()
        } else {
            (self.costs.buffer)(buffer_id)
        }
    }

    /// The document after a row was read.
    pub open spec fn after_read(self, row_id: i64) -> Doc<E> {
        let log = self.log + self.row_cost(row_id);
        if self.at(row_id) is Ok {
            Doc { loaded: self.loaded.insert(row_id), log, ..self }
        } else {
            Doc { log, ..self }
        }
    }

    /// The document after the rows of a buffer were looked up.
    pub open spec fn after_lookup(self, buffer_id: i64) -> Doc<E> {
        let log = self.log + self.buffer_cost(buffer_id);
        match (self.candidates)(buffer_id) {
            Ok(ids) => Doc { lookups: self.lookups.push((buffer_id, ids)), log, ..self },
            Err(_) => Doc { log, ..self },
        }
    }

    /// The document after one of its ends was read.
    pub open spec fn after_endpoint(self, endpoint: ResolveEndpoint) -> Doc<E> {
        Doc { log: self.log + (self.costs.endpoint)(endpoint), ..self }
    }

    /// A read of a row: the document afterwards, and the row.
    pub open spec fn read(self, row_id: i64) -> (Doc<E>, Result<PieceRow, EditError<E>>) {
        (
            self.after_read(row_id),
            match self.at(row_id) {
                Ok(row) => Ok(row),
                Err(e) => Err(EditError::Store(e)),
            },
        )
    }
}

/// A document that rows can be read from.
pub trait ResolveSource {
    type Error;

    /// What the source holds besides the document.
    type Rest;

    spec fn rest(&self) -> Self::Rest;

    /// Where the source reads from, if from anywhere.
    type Tree;

    spec fn tree(&self) -> &mut Self::Tree;

    spec fn doc(&self) -> Doc<Self::Error>;

    spec fn wf(&self) -> bool;

    proof fn lemma_ids_match(&self)
        requires
            self.wf(),
        ensures
            self.doc().ids_match(),
    ;

    fn list_number(&self) -> (n: i64)
        requires
            self.wf(),
        ensures
            n == self.doc().list_number,
    ;

    fn candidate_row_ids(&mut self, buffer_id: i64) -> (r: Result<Vec<i64>, Self::Error>)
        requires
            old(self).wf(),
        ensures
            final(self).wf(),
            final(self).rest() == old(self).rest(),
            *final(final(self).tree()) == *final(old(self).tree()),
            final(self).doc() == old(self).doc().after_lookup(buffer_id),
            match (old(self).doc().candidates)(buffer_id) {
                Ok(ids) => r matches Ok(v) && v@ == ids,
                Err(e) => r == Err::<Vec<i64>, Self::Error>(e),
            },
    ;

    fn read_row(&mut self, row_id: i64) -> (r: Result<PieceRow, Self::Error>)
        requires
            old(self).wf(),
        ensures
            final(self).wf(),
            final(self).rest() == old(self).rest(),
            *final(final(self).tree()) == *final(old(self).tree()),
            final(self).doc() == old(self).doc().after_read(row_id),
            r == old(self).doc().at(row_id),
    ;

    fn read_endpoint(&mut self, endpoint: ResolveEndpoint) -> (r: Result<i64, Self::Error>)
        requires
            old(self).wf(),
        ensures
            final(self).wf(),
            final(self).rest() == old(self).rest(),
            *final(final(self).tree()) == *final(old(self).tree()),
            final(self).doc() == old(self).doc().after_endpoint(endpoint),
            r == old(self).doc().endpoint(endpoint),
    ;
}

// ---------- candidates ----------

/// What makes a row unfit as a candidate, if anything.
pub open spec fn candidate_fault(list_number: i64, buffer_id: i64, row: PieceRow) -> Option<EditFault> {
    if row.list_number != list_number {
        Some(EditFault::CandidateInOtherList {
            buffer_id,
            row_id: row.id,
            found_list: row.list_number,
            list_number,
        })
    } else if row.coord.len_bytes == 0 {
        Some(EditFault::ZeroLength { row_id: row.id })
    } else if row.coord.end() > u32::MAX {
        Some(EditFault::RangeOverflow { row_id: row.id })
    } else {
        None
    }
}

/// Reads the candidate rows one after the other, up to the first that cannot be
/// read or is unfit.
pub open spec fn read_candidates<E>(doc: Doc<E>, buffer_id: i64, ids: Seq<i64>) -> (
    Doc<E>,
    Result<Seq<PieceRow>, EditError<E>>,
)
    decreases ids.len(),
{
    if ids.len() == 0 {
        (doc, Ok(Seq::empty()))
    } else {
        let (d1, r1) = read_candidates(doc, buffer_id, ids.drop_last());
        match r1 {
            Err(e) => (d1, Err(e)),
            Ok(rows) => {
                let (d2, r2) = d1.read(ids.last());
                match r2 {
                    Err(e) => (d2, Err(e)),
                    Ok(row) => match candidate_fault(doc.list_number, buffer_id, row) {
                        Some(f) => (d2, Err(EditError::Fault(f))),
                        None => (d2, Ok(rows.push(row))),
                    },
                }
            },
        }
    }
}

pub open spec fn span_of(row: PieceRow) -> Span {
    Span { start: row.coord.start_byte, end: row.coord.end() as u32, id: row.id }
}

/// The order of spans: by start, then by end, then by row.
pub open spec fn span_le(a: Span, b: Span) -> bool {
    a.start < b.start || (a.start == b.start && (a.end < b.end || (a.end == b.end && a.id <= b.id)))
}

/// Puts a span in its place among ordered spans.
pub open spec fn insert_span(spans: Seq<Span>, x: Span) -> Seq<Span>
    decreases spans.len(),
{
    if spans.len() == 0 || span_le(spans.last(), x) {
        spans.push(x)
    } else {
        insert_span(spans.drop_last(), x).push(spans.last())
    }
}

/// The rows' spans in order.
pub open spec fn sorted_spans(rows: Seq<PieceRow>) -> Seq<Span>
    decreases rows.len(),
{
    if rows.len() == 0 {
        Seq::empty()
    } else {
        insert_span(sorted_spans(rows.drop_last()), span_of(rows.last()))
    }
}

/// The first of ordered spans that the next one overlaps.
pub open spec fn first_overlap(spans: Seq<Span>) -> Option<int>
    decreases spans.len(),
{
    if spans.len() < 2 {
        None
    } else {
        match first_overlap(spans.drop_last()) {
            Some(i) => Some(i),
            None => if spans[spans.len() - 2].end > spans.last().start {
                Some(spans.len() - 2)
            } else {
                None
            },
        }
    }
}

/// The overlap among a buffer's rows that is reported, if any two overlap.
pub open spec fn overlap_fault(buffer_id: i64, rows: Seq<PieceRow>) -> Option<EditFault> {
    let spans = sorted_spans(rows);
    match first_overlap(spans) {
        Some(i) => Some(EditFault::Overlap { left: spans[i], right: spans[i + 1], buffer_id }),
        None => None,
    }
}

pub open spec fn holds_inside(row: PieceRow, byte_pos: u32) -> bool {
    row.coord.start_byte < byte_pos < row.coord.end()
}

pub open spec fn ends_at(row: PieceRow, byte_pos: u32) -> bool {
    row.coord.end() == byte_pos
}

pub open spec fn starts_at(row: PieceRow, byte_pos: u32) -> bool {
    row.coord.start_byte == byte_pos
}

/// The last row with a property, if there is one.
pub open spec fn last_where(rows: Seq<PieceRow>, p: spec_fn(PieceRow) -> bool) -> Option<PieceRow>
    decreases rows.len(),
{
    if rows.len() == 0 {
        None
    } else if p(rows.last()) {
        Some(rows.last())
    } else {
        last_where(rows.drop_last(), p)
    }
}

/// The row that a byte position belongs to: one that holds it inside, else one
/// that ends there, else one that starts there.
pub open spec fn matched_row(rows: Seq<PieceRow>, byte_pos: u32) -> Option<PieceRow> {
    match last_where(rows, |r: PieceRow| holds_inside(r, byte_pos)) {
        Some(r) => Some(r),
        None => match last_where(rows, |r: PieceRow| ends_at(r, byte_pos)) {
            Some(r) => Some(r),
            None => last_where(rows, |r: PieceRow| starts_at(r, byte_pos)),
        },
    }
}

// ---------- deleted rows ----------

pub open spec fn neighbour(row: PieceRow, direction: ClampDirection) -> i64 {
    match direction {
        ClampDirection::Backward => row.prev_id,
        ClampDirection::Forward => row.next_id,
    }
}

/// The end of the document that a walk comes to.
pub open spec fn end_towards(direction: ClampDirection) -> ResolveEndpoint {
    match direction {
        ClampDirection::Backward => ResolveEndpoint::Head,
        ClampDirection::Forward => ResolveEndpoint::Tail,
    }
}

/// What is wrong with the neighbour that a walk steps on, if anything.
pub open spec fn clamp_step_fault(
    list_number: i64,
    current: PieceRow,
    next: PieceRow,
    direction: ClampDirection,
) -> Option<EditFault> {
    if next.list_number != list_number {
        Some(EditFault::ClampInOtherList { row_id: next.id, found_list: next.list_number, list_number })
    } else {
        match direction {
            ClampDirection::Backward => if next.next_id != current.id {
                Some(EditFault::ClampNextMismatch {
                    row_id: next.id,
                    next_id: next.next_id,
                    expected: current.id,
                })
            } else {
                None
            },
            ClampDirection::Forward => if next.prev_id != current.id {
                Some(EditFault::ClampPrevMismatch {
                    row_id: next.id,
                    prev_id: next.prev_id,
                    expected: current.id,
                })
            } else {
                None
            },
        }
    }
}

/// The end of a walk at a row whose pointer claims that the chain ends there:
/// the claim must agree with the document's endpoint.
pub open spec fn clamp_at_end<E>(
    doc: Doc<E>,
    start_row_id: i64,
    current: PieceRow,
    direction: ClampDirection,
    hops: u32,
) -> Result<ResolveCoreResult, EditError<E>> {
    match direction {
        ClampDirection::Backward => match doc.head {
            Err(e) => Err(EditError::Store(e)),
            Ok(head_id) => if current.id != head_id {
                Err(EditError::Fault(EditFault::ClampNotHead { row_id: current.id, head_id }))
            } else {
                Ok(ResolveCoreResult::ClampedBeforeHead { head_id, start_row_id, direction, hops })
            },
        },
        ClampDirection::Forward => match doc.tail {
            Err(e) => Err(EditError::Store(e)),
            Ok(tail_id) => if current.id != tail_id {
                Err(EditError::Fault(EditFault::ClampNotTail { row_id: current.id, tail_id }))
            } else {
                Ok(ResolveCoreResult::ClampedAfterTail { tail_id, start_row_id, direction, hops })
            },
        },
    }
}

/// The walk from a row to the nearest live row, `hops` deleted rows in.
pub open spec fn clamp_walk<E>(
    doc: Doc<E>,
    start_row_id: i64,
    current: PieceRow,
    direction: ClampDirection,
    hops: u32,
) -> (Doc<E>, Result<ResolveCoreResult, EditError<E>>)
    decreases u32::MAX - hops,
{
    if !current.coord.tombstone {
        (doc, Ok(ResolveCoreResult::ClampedToRow { row: current, start_row_id, direction, hops }))
    } else if hops == u32::MAX {
        (doc, Err(EditError::Fault(EditFault::HopsOverflow)))
    } else if neighbour(current, direction) == 0 {
        (
            doc.after_endpoint(end_towards(direction)),
            clamp_at_end(doc, start_row_id, current, direction, (hops + 1) as u32),
        )
    } else {
        let (d, r) = doc.read(neighbour(current, direction));
        match r {
            Err(e) => (d, Err(e)),
            Ok(next) => match clamp_step_fault(doc.list_number, current, next, direction) {
                Some(f) => (d, Err(EditError::Fault(f))),
                None => clamp_walk(d, start_row_id, next, direction, (hops + 1) as u32),
            },
        }
    }
}

// ---------- resolution ----------

/// What becomes of a coordinate once its buffer's rows are known.
pub open spec fn resolve_among<E>(
    doc: Doc<E>,
    coord: BufferCoord,
    purpose: ResolvePurpose,
    rows: Seq<PieceRow>,
) -> (Doc<E>, Result<ResolveCoreResult, EditError<E>>) {
    match overlap_fault(coord.buffer_id, rows) {
        Some(f) => (doc, Err(EditError::Fault(f))),
        None => match matched_row(rows, coord.byte_pos) {
            None => (doc, Err(EditError::Fault(EditFault::UnknownCoordinate { coord, purpose }))),
            Some(row) => if row.coord.tombstone {
                clamp_walk(doc, row.id, row, purpose.clamp_direction(), 0)
            } else {
                (
                    doc,
                    Ok(ResolveCoreResult::InRow {
                        row,
                        offset: (coord.byte_pos - row.coord.start_byte) as u32,
                    }),
                )
            },
        },
    }
}

/// The resolution of a coordinate: the document after the reads that it takes,
/// and where the coordinate lies.
pub open spec fn resolve_core<E>(doc: Doc<E>, coord: BufferCoord, purpose: ResolvePurpose) -> (
    Doc<E>,
    Result<ResolveCoreOutput, EditError<E>>,
) {
    if coord == BufferCoord::document_start() {
        (
            doc.after_endpoint(ResolveEndpoint::Head),
            match doc.head {
                Ok(head_id) => Ok(ResolveCoreOutput {
                    result: ResolveCoreResult::DocumentStart { head_id },
                    candidate_count: 0,
                }),
                Err(e) => Err(EditError::Store(e)),
            },
        )
    } else if coord.buffer_id <= 0 {
        (doc, Err(EditError::Fault(EditFault::BufferNotPositive { buffer_id: coord.buffer_id })))
    } else {
        match (doc.candidates)(coord.buffer_id) {
            Err(e) => (doc.after_lookup(coord.buffer_id), Err(EditError::Store(e))),
            Ok(ids) => {
                let (d1, r1) = read_candidates(doc.after_lookup(coord.buffer_id), coord.buffer_id, ids);
                match r1 {
                    Err(e) => (d1, Err(e)),
                    Ok(rows) => {
                        let (d2, r2) = resolve_among(d1, coord, purpose, rows);
                        (
                            d2,
                            match r2 {
                                Err(e) => Err(e),
                                Ok(result) => Ok(ResolveCoreOutput {
                                    result,
                                    candidate_count: ids.len() as usize,
                                }),
                            },
                        )
                    },
                }
            },
        }
    }
}

/// Whatever is read is read after what was read before.
proof fn lemma_candidates_read_on<E>(doc: Doc<E>, buffer_id: i64, ids: Seq<i64>)
    ensures
        doc.log.is_prefix_of(read_candidates(doc, buffer_id, ids).0.log),
    decreases ids.len(),
{
    if ids.len() > 0 {
        lemma_candidates_read_on(doc, buffer_id, ids.drop_last());
    }
}

proof fn lemma_clamp_reads_on<E>(
    doc: Doc<E>,
    start_row_id: i64,
    current: PieceRow,
    direction: ClampDirection,
    hops: u32,
)
    ensures
        doc.log.is_prefix_of(clamp_walk(doc, start_row_id, current, direction, hops).0.log),
    decreases u32::MAX - hops,
{
    if current.coord.tombstone && hops < u32::MAX && neighbour(current, direction) != 0 {
        let (d, r) = doc.read(neighbour(current, direction));
        if let Ok(next) = r {
            if clamp_step_fault(doc.list_number, current, next, direction) is None {
                lemma_clamp_reads_on(d, start_row_id, next, direction, (hops + 1) as u32);
            }
        }
    }
}

/// A resolution looks the rows of the coordinate's buffer up before all else.
pub proof fn lemma_lookup_comes_first<E>(doc: Doc<E>, coord: BufferCoord, purpose: ResolvePurpose)
    requires
        coord.buffer_id > 0,
    ensures
        doc.after_lookup(coord.buffer_id).log.is_prefix_of(resolve_core(doc, coord, purpose).0.log),
{
    if let Ok(ids) = (doc.candidates)(coord.buffer_id) {
        let d0 = doc.after_lookup(coord.buffer_id);
        lemma_candidates_read_on(d0, coord.buffer_id, ids);
        let (d1, r1) = read_candidates(d0, coord.buffer_id, ids);
        if let Ok(rows) = r1 {
            if let Some(row) = matched_row(rows, coord.byte_pos) {
                lemma_clamp_reads_on(d1, row.id, row, purpose.clamp_direction(), 0);
            }
        }
    }
}

fn span_after(a: &Span, b: &Span) -> (r: bool)
    ensures
        r == !span_le(*a, *b),
{
    a.start > b.start || (a.start == b.start && (a.end > b.end || (a.end == b.end && a.id > b.id)))
}

fn insert_span_in_order(spans: &mut Vec<Span>, x: Span)
    ensures
        final(spans)@ == insert_span(old(spans)@, x),
{
    let mut p: usize = spans.len();
    proof {
        assert(spans@.take(p as int) =~= spans@);
        assert(insert_span(spans@, x) + spans@.skip(p as int) =~= insert_span(spans@, x));
    }
    while p > 0 && span_after(&spans[p - 1], &x)
        invariant
            p <= spans.len(),
            spans@ == old(spans)@,
            insert_span(spans@, x) == insert_span(spans@.take(p as int), x) + spans@.skip(p as int),
        decreases p,
    {
        proof {
            let t = spans@.take(p as int);
            assert(t.drop_last() =~= spans@.take(p - 1));
            assert(insert_span(t, x) + spans@.skip(p as int) =~= insert_span(t.drop_last(), x)
                + spans@.skip(p - 1));
        }
        p = p - 1;
    }
    proof {
        assert(insert_span(spans@.take(p as int), x) == spans@.take(p as int).push(x));
        assert(spans@.take(p as int).push(x) + spans@.skip(p as int) =~= spans@.insert(p as int, x));
    }
    spans.insert(p, x);
}

/// Finds two of a buffer's rows that overlap.
fn verify_candidate_ranges_disjoint(buffer_id: i64, rows: &Vec<PieceRow>) -> (r: Result<(), EditFault>)
    requires
        forall|i: int| 0 <= i < rows.len() ==> (#[trigger] rows@[i]).coord.end() <= u32::MAX,
    ensures
        match overlap_fault(buffer_id, rows@) {
            Some(f) => r == Err::<(), EditFault>(f),
            None => r is Ok,
        },
{
    let mut spans: Vec<Span> = Vec::new();
    let mut i: usize = 0;
    while i < rows.len()
        invariant
            i <= rows.len(),
            forall|i: int| 0 <= i < rows.len() ==> (#[trigger] rows@[i]).coord.end() <= u32::MAX,
            spans@ == sorted_spans(rows@.take(i as int)),
        decreases rows.len() - i,
    {
        let row = rows[i];
        let end: u32 = row.coord.start_byte + row.coord.len_bytes;
        insert_span_in_order(&mut spans, Span { start: row.coord.start_byte, end, id: row.id });
        proof {
            assert(rows@.take(i + 1).drop_last() =~= rows@.take(i as int));
        }
        i = i + 1;
    }
    assert(rows@.take(rows@.len() as int) =~= rows@);
    let mut j: usize = 1;
    proof {
        if spans.len() > 0 {
            assert(first_overlap(spans@.take(1)) is None);
        }
    }
    while j < spans.len()
        invariant
            1 <= j,
            spans.len() == 0 || j <= spans.len(),
            spans@ == sorted_spans(rows@),
            spans.len() > 0 ==> first_overlap(spans@.take(j as int)) is None,
        decreases spans.len() - j,
    {
        proof {
            assert(spans@.take(j + 1).drop_last() =~= spans@.take(j as int));
        }
        if spans[j - 1].end > spans[j].start {
            proof {
                lemma_first_overlap_kept(spans@, j + 1);
            }
            return Err(EditFault::Overlap { left: spans[j - 1], right: spans[j], buffer_id });
        }
        j = j + 1;
    }
    proof {
        if spans.len() > 0 {
            assert(spans@.take(spans@.len() as int) =~= spans@);
        }
    }
    Ok(())
}

proof fn lemma_first_overlap_kept(spans: Seq<Span>, n: int)
    requires
        0 <= n <= spans.len(),
        first_overlap(spans.take(n)) is Some,
    ensures
        first_overlap(spans) == first_overlap(spans.take(n)),
    decreases spans.len(),
{
    if n == spans.len() {
        assert(spans.take(n) =~= spans);
    } else {
        assert(spans.drop_last().take(n) =~= spans.take(n));
        lemma_first_overlap_kept(spans.drop_last(), n);
    }
}

/// Walks from a deleted row to the nearest live one.
fn clamp_tombstones<S: ResolveSource>(source: &mut S, start_row: PieceRow, purpose: ResolvePurpose) -> (r:
    Result<ResolveCoreResult, EditError<S::Error>>)
    requires
        old(source).wf(),
    ensures
        final(source).wf(),
        final(source).rest() == old(source).rest(),
        *final(final(source).tree()) == *final(old(source).tree()),
        (final(source).doc(), r) == clamp_walk(
            old(source).doc(),
            start_row.id,
            start_row,
            purpose.clamp_direction(),
            0,
        ),
{
    let direction = purpose.clamp_direction();
    let start_row_id: i64 = start_row.id;
    let mut current = start_row;
    let mut hops: u32 = 0;
    loop
        invariant
            source.wf(),
            source.rest() == old(source).rest(),
            *final(source.tree()) == *final(old(source).tree()),
            direction == purpose.clamp_direction(),
            start_row_id == start_row.id,
            clamp_walk(old(source).doc(), start_row.id, start_row, direction, 0) == clamp_walk(
                source.doc(),
                start_row_id,
                current,
                direction,
                hops,
            ),
        decreases u32::MAX - hops,
    {
        if !current.coord.tombstone {
            return Ok(ResolveCoreResult::ClampedToRow { row: current, start_row_id, direction, hops });
        }
        if hops == u32::MAX {
            return Err(EditError::Fault(EditFault::HopsOverflow));
        }
        let neighbour_id: i64 = match direction {
            ClampDirection::Backward => current.prev_id,
            ClampDirection::Forward => current.next_id,
        };
        if neighbour_id == 0 {
            hops = hops + 1;
            match direction {
                ClampDirection::Backward => {
                    return match source.read_endpoint(ResolveEndpoint::Head) {
                        Err(e) => Err(EditError::Store(e)),
                        Ok(head_id) => if current.id != head_id {
                            Err(EditError::Fault(EditFault::ClampNotHead { row_id: current.id, head_id }))
                        } else {
                            Ok(ResolveCoreResult::ClampedBeforeHead { head_id, start_row_id, direction, hops })
                        },
                    };
                },
                ClampDirection::Forward => {
                    return match source.read_endpoint(ResolveEndpoint::Tail) {
                        Err(e) => Err(EditError::Store(e)),
                        Ok(tail_id) => if current.id != tail_id {
                            Err(EditError::Fault(EditFault::ClampNotTail { row_id: current.id, tail_id }))
                        } else {
                            Ok(ResolveCoreResult::ClampedAfterTail { tail_id, start_row_id, direction, hops })
                        },
                    };
                },
            }
        }
        let list_number: i64 = source.list_number();
        let next = match source.read_row(neighbour_id) {
            Err(e) => {
                return Err(EditError::Store(e));
            },
            Ok(next) => next,
        };
        if next.list_number != list_number {
            return Err(
                EditError::Fault(
                    EditFault::ClampInOtherList {
                        row_id: next.id,
                        found_list: next.list_number,
                        list_number,
                    },
                ),
            );
        }
        match direction {
            ClampDirection::Backward => {
                if next.next_id != current.id {
                    return Err(
                        EditError::Fault(
                            EditFault::ClampNextMismatch {
                                row_id: next.id,
                                next_id: next.next_id,
                                expected: current.id,
                            },
                        ),
                    );
                }
            },
            ClampDirection::Forward => {
                if next.prev_id != current.id {
                    return Err(
                        EditError::Fault(
                            EditFault::ClampPrevMismatch {
                                row_id: next.id,
                                prev_id: next.prev_id,
                                expected: current.id,
                            },
                        ),
                    );
                }
            },
        }
        hops = hops + 1;
        current = next;
    }
}

/// The row that a byte position belongs to.
fn match_row(rows: &Vec<PieceRow>, byte_pos: u32) -> (r: Option<PieceRow>)
    requires
        forall|i: int| 0 <= i < rows.len() ==> (#[trigger] rows@[i]).coord.end() <= u32::MAX,
        forall|i: int| 0 <= i < rows.len() ==> (#[trigger] rows@[i]).coord.len_bytes > 0,
    ensures
        r == matched_row(rows@, byte_pos),
{
    let mut inside: Option<PieceRow> = None;
    let mut before: Option<PieceRow> = None;
    let mut after: Option<PieceRow> = None;
    let mut i: usize = 0;
    while i < rows.len()
        invariant
            i <= rows.len(),
            forall|i: int| 0 <= i < rows.len() ==> (#[trigger] rows@[i]).coord.end() <= u32::MAX,
            forall|i: int| 0 <= i < rows.len() ==> (#[trigger] rows@[i]).coord.len_bytes > 0,
            inside == last_where(rows@.take(i as int), |r: PieceRow| holds_inside(r, byte_pos)),
            before == last_where(rows@.take(i as int), |r: PieceRow| ends_at(r, byte_pos)),
            after == last_where(rows@.take(i as int), |r: PieceRow| starts_at(r, byte_pos)),
        decreases rows.len() - i,
    {
        let row = rows[i];
        proof {
            assert(rows@.take(i + 1).drop_last() =~= rows@.take(i as int));
        }
        let end: u32 = row.coord.start_byte + row.coord.len_bytes;
        if row.coord.start_byte < byte_pos && byte_pos < end {
            inside = Some(row);
        } else if end == byte_pos {
            before = Some(row);
        } else if row.coord.start_byte == byte_pos {
            after = Some(row);
        }
        i = i + 1;
    }
    assert(rows@.take(rows@.len() as int) =~= rows@);
    match inside {
        Some(row) => Some(row),
        None => match before {
            Some(row) => Some(row),
            None => after,
        },
    }
}

proof fn lemma_last_where(rows: Seq<PieceRow>, p: spec_fn(PieceRow) -> bool)
    ensures
        match last_where(rows, p) {
            Some(r) => rows.contains(r) && p(r),
            None => forall|i: int| 0 <= i < rows.len() ==> !p(#[trigger] rows[i]),
        },
    decreases rows.len(),
{
    if rows.len() > 0 && !p(rows.last()) {
        lemma_last_where(rows.drop_last(), p);
        match last_where(rows.drop_last(), p) {
            Some(r) => {
                let i = choose|i: int| 0 <= i < rows.drop_last().len() && rows.drop_last()[i] == r;
                assert(rows[i] == r);
            },
            None => {
                assert forall|i: int| 0 <= i < rows.len() implies !p(#[trigger] rows[i]) by {
                    if i < rows.len() - 1 {
                        assert(rows.drop_last()[i] == rows[i]);
                    }
                }
            },
        }
    } else if rows.len() > 0 {
        assert(rows[rows.len() - 1] == rows.last());
    }
}

/// The matched row is one of the candidates, and the position lies in it or at
/// one of its ends: at its start only if none of them ends there.
pub proof fn lemma_matched_row(rows: Seq<PieceRow>, byte_pos: u32)
    ensures
        match matched_row(rows, byte_pos) {
            Some(r) => {
                &&& rows.contains(r)
                &&& r.coord.start_byte <= byte_pos <= r.coord.end()
                &&& r.coord.start_byte == byte_pos && r.coord.len_bytes > 0 ==> forall|i: int|
                    0 <= i < rows.len() ==> (#[trigger] rows[i]).coord.end() != byte_pos
            },
            None => forall|i: int|
                0 <= i < rows.len() ==> !((#[trigger] rows[i]).coord.start_byte <= byte_pos
                    <= rows[i].coord.end()),
        },
{
    let inside = |r: PieceRow| holds_inside(r, byte_pos);
    let end = |r: PieceRow| ends_at(r, byte_pos);
    let start = |r: PieceRow| starts_at(r, byte_pos);
    lemma_last_where(rows, inside);
    lemma_last_where(rows, end);
    lemma_last_where(rows, start);
    match matched_row(rows, byte_pos) {
        Some(r) => {
            if r.coord.start_byte == byte_pos && r.coord.len_bytes > 0 {
                assert forall|i: int| 0 <= i < rows.len() implies (#[trigger] rows[i]).coord.end()
                    != byte_pos by {
                    assert(!end(rows[i]));
                }
            }
        },
        None => {
            assert forall|i: int| 0 <= i < rows.len() implies !((#[trigger] rows[i]).coord.start_byte
                <= byte_pos <= rows[i].coord.end()) by {
                assert(!inside(rows[i]) && !end(rows[i]) && !start(rows[i]));
            }
        },
    }
}

/// Resolves a coordinate to a place in the document.
pub fn resolve_coord_core<S: ResolveSource>(source: &mut S, coord: BufferCoord, purpose: ResolvePurpose) -> (r:
    Result<ResolveCoreOutput, EditError<S::Error>>)
    requires
        old(source).wf(),
    ensures
        final(source).wf(),
        final(source).rest() == old(source).rest(),
        *final(final(source).tree()) == *final(old(source).tree()),
        (final(source).doc(), r) == resolve_core(old(source).doc(), coord, purpose),
{
    if coord.buffer_id == 0 && coord.byte_pos == 0 {
        return match source.read_endpoint(ResolveEndpoint::Head) {
            Ok(head_id) => Ok(
                ResolveCoreOutput {
                    result: ResolveCoreResult::DocumentStart { head_id },
                    candidate_count: 0,
                },
            ),
            Err(e) => Err(EditError::Store(e)),
        };
    }
    if coord.buffer_id <= 0 {
        return Err(EditError::Fault(EditFault::BufferNotPositive { buffer_id: coord.buffer_id }));
    }
    let ids = match source.candidate_row_ids(coord.buffer_id) {
        Err(e) => {
            return Err(EditError::Store(e));
        },
        Ok(ids) => ids,
    };
    let ghost start = source.doc();
    let list_number: i64 = source.list_number();
    let mut candidates: Vec<PieceRow> = Vec::new();
    let mut i: usize = 0;
    while i < ids.len()
        invariant
            i <= ids.len(),
            source.wf(),
            source.rest() == old(source).rest(),
            *final(source.tree()) == *final(old(source).tree()),
            coord.buffer_id > 0,
            (old(source).doc().candidates)(coord.buffer_id) == Ok::<Seq<i64>, S::Error>(ids@),
            start == old(source).doc().after_lookup(coord.buffer_id),
            list_number == start.list_number,
            (source.doc(), Ok::<Seq<PieceRow>, EditError<S::Error>>(candidates@)) == read_candidates(
                start,
                coord.buffer_id,
                ids@.take(i as int),
            ),
            forall|i: int| 0 <= i < candidates.len() ==> (#[trigger] candidates@[i]).coord.end() <= u32::MAX,
            forall|i: int| 0 <= i < candidates.len() ==> (#[trigger] candidates@[i]).coord.len_bytes > 0,
        ensures
            i == ids.len(),
        decreases ids.len() - i,
    {
        proof {
            assert(ids@.take(i + 1).drop_last() =~= ids@.take(i as int));
        }
        let row = match source.read_row(ids[i]) {
            Err(e) => {
                proof {
                    lemma_read_candidates_stops(start, coord.buffer_id, ids@, i + 1);
                }
                return Err(EditError::Store(e));
            },
            Ok(row) => row,
        };
        if row.list_number != list_number {
            proof {
                lemma_read_candidates_stops(start, coord.buffer_id, ids@, i + 1);
            }
            return Err(
                EditError::Fault(
                    EditFault::CandidateInOtherList {
                        buffer_id: coord.buffer_id,
                        row_id: row.id,
                        found_list: row.list_number,
                        list_number,
                    },
                ),
            );
        }
        if row.coord.len_bytes == 0 {
            proof {
                lemma_read_candidates_stops(start, coord.buffer_id, ids@, i + 1);
            }
            return Err(EditError::Fault(EditFault::ZeroLength { row_id: row.id }));
        }
        if row.coord.start_byte.checked_add(row.coord.len_bytes).is_none() {
            proof {
                lemma_read_candidates_stops(start, coord.buffer_id, ids@, i + 1);
            }
            return Err(EditError::Fault(EditFault::RangeOverflow { row_id: row.id }));
        }
        candidates.push(row);
        i = i + 1;
    }
    assert(ids@.take(ids@.len() as int) =~= ids@);
    if let Err(f) = verify_candidate_ranges_disjoint(coord.buffer_id, &candidates) {
        return Err(EditError::Fault(f));
    }
    let row = match match_row(&candidates, coord.byte_pos) {
        None => {
            return Err(EditError::Fault(EditFault::UnknownCoordinate { coord, purpose }));
        },
        Some(row) => row,
    };
    proof {
        lemma_matched_row(candidates@, coord.byte_pos);
    }
    let result = if row.coord.tombstone {
        match clamp_tombstones(source, row, purpose) {
            Err(e) => {
                return Err(e);
            },
            Ok(result) => result,
        }
    } else {
        ResolveCoreResult::InRow { row, offset: coord.byte_pos - row.coord.start_byte }
    };
    Ok(ResolveCoreOutput { result, candidate_count: ids.len() })
}

proof fn lemma_read_candidates_stops<E>(doc: Doc<E>, buffer_id: i64, ids: Seq<i64>, n: int)
    requires
        0 <= n <= ids.len(),
        read_candidates(doc, buffer_id, ids.take(n)).1 is Err,
    ensures
        read_candidates(doc, buffer_id, ids) == read_candidates(doc, buffer_id, ids.take(n)),
    decreases ids.len(),
{
    if n == ids.len() {
        assert(ids.take(n) =~= ids);
    } else {
        assert(ids.drop_last().take(n) =~= ids.take(n));
        lemma_read_candidates_stops(doc, buffer_id, ids.drop_last(), n);
    }
}

} // verus!
