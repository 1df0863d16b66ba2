//! Envelopes of cleanups: what a cleanup of a document asks to be removed.
//!
//! A cleanup takes rows that were deleted out of the tree, or buffers that no row
//! refers to. What can be checked of a request without the tree is checked here.

use std::collections::BTreeSet;

use vstd::prelude::*;

use crate::changelog::{
    check_message, message_fault, root_path, root_tree_path, ChangelogEntry, ChangelogError, ErrorView,
    KvData, KvView, LogMessage, MessageView,
};
use crate::faults::{EntryKeyKind, EnvelopeFault, EnvelopeKind, KeyFault, KeyFaultView, OpType};
use crate::piece_text::{AddressView, PieceTextAddress};
use crate::storage::{clone_key, same_bytes, KeyView, StorageKey};
use crate::wire::{
    cleanup_buffers_bytes, cleanup_buffers_parts, cleanup_pieces_bytes, cleanup_pieces_parts,
    decode_cleanup_buffers, decode_cleanup_pieces, encode_cleanup_buffers, encode_cleanup_pieces,
    runs_view, BuffersWireView, PiecesWireView,
};

verus! {

pub const PIECE_TEXT_CLEANUP_ENVELOPE_VERSION_V1: u8 = 1;

/// Most rows that one cleanup removes.
pub const MAX_PIECE_TEXT_CLEANUP_PIECE_REMOVALS: usize = 256;

/// Most runs of one cleanup.
pub const MAX_PIECE_TEXT_CLEANUP_RUNS: usize = 64;

/// Most buffers that one cleanup removes.
pub const MAX_PIECE_TEXT_CLEANUP_BUFFER_REMOVALS: usize = 64;

/// Deleted rows that follow each other in the chain, to be taken out of it.
#[derive(Clone, Debug, PartialEq, Eq)]
pub struct PieceTextCleanupRunV1 {
    pub removals: Vec<i64>,
}

pub open spec fn removals_view(runs: Seq<PieceTextCleanupRunV1>) -> Seq<Seq<i64>> {
    Seq::new(runs.len(), |i: int| runs[i].removals@)
}

// ---------- runs ----------

/// All rows of the runs, in order.
pub open spec fn removed_rows(runs: Seq<Seq<i64>>) -> Seq<i64>
    decreases runs.len(),
{
    if runs.len() == 0 {
        Seq::empty()
    } else {
        removed_rows(runs.drop_last()) + runs.last()
    }
}

/// The first fault among the rows of a run, after the rows seen before it.
pub open spec fn removals_fault(seen: Seq<i64>, run: Seq<i64>) -> Option<EnvelopeFault>
    decreases run.len(),
{
    if run.len() == 0 {
        None
    } else {
        match removals_fault(seen, run.drop_last()) {
            Some(f) => Some(f),
            None => if run.last() <= 0 {
                Some(EnvelopeFault::RemovalNotPositive { row_id: run.last() })
            } else if (seen + run.drop_last()).contains(run.last()) {
                Some(EnvelopeFault::RemovalRepeated { row_id: run.last() })
            } else {
                None
            },
        }
    }
}

/// What is wrong with a run that comes after others, if anything.
pub open spec fn run_fault(before: Seq<Seq<i64>>, run: Seq<i64>) -> Option<EnvelopeFault> {
    if run.len() == 0 {
        Some(EnvelopeFault::EmptyRun)
    } else {
        match removals_fault(removed_rows(before), run) {
            Some(f) => Some(f),
            None => if before.len() > 0 && run[0] <= before.last()[0] {
                Some(EnvelopeFault::RunOrder)
            } else {
                None
            },
        }
    }
}

/// The first fault among runs.
pub open spec fn first_run_fault(runs: Seq<Seq<i64>>) -> Option<EnvelopeFault>
    decreases runs.len(),
{
    if runs.len() == 0 {
        None
    } else {
        match first_run_fault(runs.drop_last()) {
            Some(f) => Some(f),
            None => run_fault(runs.drop_last(), runs.last()),
        }
    }
}

/// What is wrong with the runs of a cleanup, if anything.
pub open spec fn runs_fault(runs: Seq<Seq<i64>>) -> Option<EnvelopeFault> {
    if runs.len() == 0 {
        Some(EnvelopeFault::NoRuns)
    } else if runs.len() > MAX_PIECE_TEXT_CLEANUP_RUNS {
        Some(EnvelopeFault::TooManyRuns { count: runs.len() as usize })
    } else {
        match first_run_fault(runs) {
            Some(f) => Some(f),
            None => if removed_rows(runs).len() > MAX_PIECE_TEXT_CLEANUP_PIECE_REMOVALS {
                Some(EnvelopeFault::TooManyRemovals { count: removed_rows(runs).len() as usize })
            } else {
                None
            },
        }
    }
}

proof fn lemma_removals_fault_stop(seen: Seq<i64>, run: Seq<i64>, n: int)
    requires
        0 <= n <= run.len(),
        removals_fault(seen, run.take(n)) is Some,
    ensures
        removals_fault(seen, run) == removals_fault(seen, run.take(n)),
    decreases run.len(),
{
    if n == run.len() {
        assert(run.take(n) =~= run);
    } else {
        assert(run.drop_last().take(n) =~= run.take(n));
        lemma_removals_fault_stop(seen, run.drop_last(), n);
    }
}

proof fn lemma_run_fault_stop(runs: Seq<Seq<i64>>, n: int)
    requires
        0 <= n <= runs.len(),
        first_run_fault(runs.take(n)) is Some,
    ensures
        first_run_fault(runs) == first_run_fault(runs.take(n)),
    decreases runs.len(),
{
    if n == runs.len() {
        assert(runs.take(n) =~= runs);
    } else {
        assert(runs.drop_last().take(n) =~= runs.take(n));
        lemma_run_fault_stop(runs.drop_last(), n);
    }
}

proof fn lemma_push_distinct(s: Seq<i64>, x: i64)
    requires
        s.no_duplicates(),
        !s.contains(x),
    ensures
        s.push(x).no_duplicates(),
        s.push(x).to_set() == s.to_set().insert(x),
{
    let t = s.push(x);
    assert(t.to_set() =~= s.to_set().insert(x)) by {
        assert forall|y: i64| #[trigger] t.to_set().contains(y) == s.to_set().insert(x).contains(y) by {
            if s.contains(y) {
                assert(t[s.index_of(y)] == y);
            }
            if y == x {
                assert(t[s.len() as int] == x);
            }
        }
    }
}

/// Adds a run's rows to those seen, up to the first that is bad.
fn see_removals(seen: &mut BTreeSet<i64>, run: &Vec<i64>, Ghost(before): Ghost<Seq<i64>>) -> (r: Result<
    (),
    ChangelogError,
>)
    requires
        before.no_duplicates(),
        old(seen)@ == before.to_set(),
    ensures
        r == (match removals_fault(before, run@) {
            Some(f) => Err::<(), ChangelogError>(ChangelogError::Envelope(f)),
            None => Ok(()),
        }),
        r is Ok ==> (before + run@).no_duplicates() && final(seen)@ == (before + run@).to_set(),
{
    broadcast use vstd::std_specs::btree::group_btree_axioms;

    let mut j: usize = 0;
    assert(before + run@.take(0) =~= before);
    while j < run.len()
        invariant
            j <= run.len(),
            removals_fault(before, run@.take(j as int)) is None,
            (before + run@.take(j as int)).no_duplicates(),
            seen@ == (before + run@.take(j as int)).to_set(),
        decreases run.len() - j,
    {
        let row_id: i64 = run[j];
        let ghost known = before + run@.take(j as int);
        proof {
            assert(run@.take(j + 1).drop_last() =~= run@.take(j as int));
            assert(before + run@.take(j + 1) =~= known.push(row_id));
            if removals_fault(before, run@.take(j + 1)) is Some {
                lemma_removals_fault_stop(before, run@, j + 1);
            }
        }
        if row_id <= 0 {
            return Err(ChangelogError::Envelope(EnvelopeFault::RemovalNotPositive { row_id }));
        }
        assert(seen@.contains(row_id) == known.contains(row_id));
        if seen.contains(&row_id) {
            return Err(ChangelogError::Envelope(EnvelopeFault::RemovalRepeated { row_id }));
        }
        proof {
            lemma_push_distinct(known, row_id);
        }
        seen.insert(row_id);
        j = j + 1;
    }
    assert(run@.take(j as int) =~= run@);
    Ok(())
}

/// Rejects runs that are empty, repeat a row, are out of order or too many.
fn validate_runs(runs: &Vec<PieceTextCleanupRunV1>) -> (r: Result<(), ChangelogError>)
    ensures
        r == (match runs_fault(removals_view(runs@)) {
            Some(f) => Err::<(), ChangelogError>(ChangelogError::Envelope(f)),
            None => Ok(()),
        }),
{
    broadcast use vstd::std_specs::btree::group_btree_axioms;

    if runs.len() == 0 {
        return Err(ChangelogError::Envelope(EnvelopeFault::NoRuns));
    }
    if runs.len() > MAX_PIECE_TEXT_CLEANUP_RUNS {
        return Err(ChangelogError::Envelope(EnvelopeFault::TooManyRuns { count: runs.len() }));
    }
    let ghost all = removals_view(runs@);
    let mut seen: BTreeSet<i64> = BTreeSet::new();
    let mut prev_first_removed: Option<i64> = None;
    let mut i: usize = 0;
    assert(removed_rows(all.take(0)).to_set() =~= Set::empty());
    while i < runs.len()
        invariant
            i <= runs.len(),
            runs.len() <= MAX_PIECE_TEXT_CLEANUP_RUNS,
            all == removals_view(runs@),
            runs_fault(all) == (match first_run_fault(all) {
                Some(f) => Some(f),
                None => if removed_rows(all).len() > MAX_PIECE_TEXT_CLEANUP_PIECE_REMOVALS {
                    Some(EnvelopeFault::TooManyRemovals { count: removed_rows(all).len() as usize })
                } else {
                    None
                },
            }),
            first_run_fault(all.take(i as int)) is None,
            removed_rows(all.take(i as int)).no_duplicates(),
            seen@ == removed_rows(all.take(i as int)).to_set(),
            match prev_first_removed {
                Some(prev) => i > 0 && prev == all[i - 1][0],
                None => i == 0,
            },
        decreases runs.len() - i,
    {
        let run = &runs[i].removals;
        let ghost before = all.take(i as int);
        proof {
            assert(all.take(i + 1).drop_last() =~= before);
            assert(all.take(i + 1).last() == run@);
            if i > 0 {
                assert(before.last() == all[i - 1]);
            }
            if first_run_fault(all.take(i + 1)) is Some {
                lemma_run_fault_stop(all, i + 1);
            }
        }
        if run.len() == 0 {
            return Err(ChangelogError::Envelope(EnvelopeFault::EmptyRun));
        }
        see_removals(&mut seen, run, Ghost(removed_rows(before)))?;
        let first_removed: i64 = run[0];
        if let Some(prev) = prev_first_removed {
            if first_removed <= prev {
                return Err(ChangelogError::Envelope(EnvelopeFault::RunOrder));
            }
        }
        prev_first_removed = Some(first_removed);
        i = i + 1;
    }
    proof {
        assert(all.take(i as int) =~= all);
        removed_rows(all).unique_seq_to_set();
    }
    let total_removals: usize = seen.len();
    if total_removals > MAX_PIECE_TEXT_CLEANUP_PIECE_REMOVALS {
        return Err(
            ChangelogError::Envelope(EnvelopeFault::TooManyRemovals { count: total_removals }),
        );
    }
    Ok(())
}

proof fn lemma_good_removals(seen: Seq<i64>, run: Seq<i64>)
    requires
        removals_fault(seen, run) is None,
        seen.no_duplicates(),
    ensures
        (seen + run).no_duplicates(),
        forall|i: int| 0 <= i < run.len() ==> #[trigger] run[i] > 0,
    decreases run.len(),
{
    if run.len() > 0 {
        let rest = run.drop_last();
        lemma_good_removals(seen, rest);
        lemma_push_distinct(seen + rest, run.last());
        assert((seen + rest).push(run.last()) =~= seen + run);
        assert forall|i: int| 0 <= i < run.len() implies #[trigger] run[i] > 0 by {
            if i < run.len() - 1 {
                assert(rest[i] == run[i]);
            }
        }
    } else {
        assert(seen + run =~= seen);
    }
}

proof fn lemma_good_runs(runs: Seq<Seq<i64>>)
    requires
        first_run_fault(runs) is None,
    ensures
        removed_rows(runs).no_duplicates(),
        forall|i: int| 0 <= i < runs.len() ==> (#[trigger] runs[i]).len() > 0,
        forall|i: int, j: int|
            0 <= i < runs.len() && 0 <= j < runs[i].len() ==> #[trigger] runs[i][j] > 0,
        forall|i: int, j: int| 0 <= i < j < runs.len() ==> (#[trigger] runs[i])[0] < (#[trigger] runs[j])[0],
    decreases runs.len(),
{
    if runs.len() > 0 {
        let rest = runs.drop_last();
        let n = runs.len() - 1;
        lemma_good_runs(rest);
        lemma_good_removals(removed_rows(rest), runs.last());
        assert forall|i: int| 0 <= i < runs.len() implies (#[trigger] runs[i]).len() > 0 by {
            if i < n {
                assert(rest[i].len() > 0);
            }
        }
        assert forall|i: int, j: int| 0 <= i < runs.len() && 0 <= j < runs[i].len() implies #[trigger] runs[i][j]
            > 0 by {
            if i < n {
                assert(rest[i][j] > 0);
            }
        }
        assert forall|i: int, j: int| 0 <= i < j < runs.len() implies (#[trigger] runs[i])[0] < (
        #[trigger] runs[j])[0] by {
            assert(rest[i] == runs[i]);
            if j < n {
                assert(rest[j] == runs[j]);
            } else if i < n - 1 {
                assert(rest[i][0] < rest[n - 1][0]);
            }
        }
    }
}

/// Runs that pass are not empty and not too many; no row is named twice, every
/// row id is positive, and the runs are in the order of their first rows.
pub proof fn law_cleanup_runs(runs: Seq<Seq<i64>>)
    requires
        runs_fault(runs) is None,
    ensures
        0 < runs.len() <= MAX_PIECE_TEXT_CLEANUP_RUNS,
        removed_rows(runs).len() <= MAX_PIECE_TEXT_CLEANUP_PIECE_REMOVALS,
        removed_rows(runs).no_duplicates(),
        forall|i: int| 0 <= i < runs.len() ==> (#[trigger] runs[i]).len() > 0,
        forall|i: int, j: int|
            0 <= i < runs.len() && 0 <= j < runs[i].len() ==> #[trigger] runs[i][j] > 0,
        forall|i: int, j: int| 0 <= i < j < runs.len() ==> (#[trigger] runs[i])[0] < (#[trigger] runs[j])[0],
{
    lemma_good_runs(runs);
}

// ---------- buffers ----------

/// The first fault among buffer ids: one that is not positive, or not above the
/// one before it.
pub open spec fn ascending_fault(ids: Seq<i64>) -> Option<EnvelopeFault>
    decreases ids.len(),
{
    if ids.len() == 0 {
        None
    } else {
        match ascending_fault(ids.drop_last()) {
            Some(f) => Some(f),
            None => if ids.last() <= 0 {
                Some(EnvelopeFault::BufferNotPositive { buffer_id: ids.last() })
            } else if ids.len() > 1 && ids.last() <= ids[ids.len() - 2] {
                Some(EnvelopeFault::BufferOrder)
            } else {
                None
            },
        }
    }
}

/// What is wrong with the buffers of a cleanup, if anything.
pub open spec fn buffer_removals_fault(ids: Seq<i64>) -> Option<EnvelopeFault> {
    if ids.len() == 0 {
        Some(EnvelopeFault::NoBuffers)
    } else if ids.len() > MAX_PIECE_TEXT_CLEANUP_BUFFER_REMOVALS {
        Some(EnvelopeFault::TooManyBuffers { count: ids.len() as usize })
    } else {
        ascending_fault(ids)
    }
}

proof fn lemma_ascending_fault_stop(ids: Seq<i64>, n: int)
    requires
        0 <= n <= ids.len(),
        ascending_fault(ids.take(n)) is Some,
    ensures
        ascending_fault(ids) == ascending_fault(ids.take(n)),
    decreases ids.len(),
{
    if n == ids.len() {
        assert(ids.take(n) =~= ids);
    } else {
        assert(ids.drop_last().take(n) =~= ids.take(n));
        lemma_ascending_fault_stop(ids.drop_last(), n);
    }
}

/// Buffer ids that pass are positive and each above the one before it.
pub proof fn law_buffer_removals_ascend(ids: Seq<i64>)
    requires
        ascending_fault(ids) is None,
    ensures
        forall|i: int| 0 <= i < ids.len() ==> #[trigger] ids[i] > 0,
        forall|i: int, j: int| 0 <= i < j < ids.len() ==> ids[i] < ids[j],
    decreases ids.len(),
{
    if ids.len() > 0 {
        let before = ids.drop_last();
        law_buffer_removals_ascend(before);
        assert forall|i: int| 0 <= i < ids.len() implies #[trigger] ids[i] > 0 by {
            if i < ids.len() - 1 {
                assert(before[i] == ids[i]);
            }
        }
        assert forall|i: int, j: int| 0 <= i < j < ids.len() implies ids[i] < ids[j] by {
            if j < ids.len() - 1 {
                assert(before[i] < before[j]);
            } else if i < ids.len() - 2 {
                assert(before[i] < before[ids.len() - 2]);
            }
        }
    }
}

fn validate_strictly_ascending_positive(ids: &Vec<i64>) -> (r: Result<(), ChangelogError>)
    requires
        ids.len() > 0,
    ensures
        r == (match buffer_removals_fault(ids@) {
            Some(f) => Err::<(), ChangelogError>(ChangelogError::Envelope(f)),
            None => Ok(()),
        }),
{
    if ids.len() > MAX_PIECE_TEXT_CLEANUP_BUFFER_REMOVALS {
        return Err(ChangelogError::Envelope(EnvelopeFault::TooManyBuffers { count: ids.len() }));
    }
    let mut i: usize = 0;
    while i < ids.len()
        invariant
            i <= ids.len(),
            ascending_fault(ids@.take(i as int)) is None,
            buffer_removals_fault(ids@) == ascending_fault(ids@),
        decreases ids.len() - i,
    {
        let buffer_id: i64 = ids[i];
        proof {
            assert(ids@.take(i + 1).drop_last() =~= ids@.take(i as int));
            if ascending_fault(ids@.take(i + 1)) is Some {
                lemma_ascending_fault_stop(ids@, i + 1);
            }
        }
        if buffer_id <= 0 {
            return Err(ChangelogError::Envelope(EnvelopeFault::BufferNotPositive { buffer_id }));
        }
        if i > 0 && buffer_id <= ids[i - 1] {
            return Err(ChangelogError::Envelope(EnvelopeFault::BufferOrder));
        }
        i = i + 1;
    }
    assert(ids@.take(i as int) =~= ids@);
    Ok(())
}

// ---------- cleanups of pieces ----------

/// A cleanup of a document's deleted rows.
#[derive(Clone, Debug, PartialEq, Eq)]
pub struct PieceTextCleanupPiecesEnvelopeV1 {
    pub version: u8,
    pub address: PieceTextAddress,
    pub list_number: i64,
    pub op_id: i64,
    pub runs: Vec<PieceTextCleanupRunV1>,
}

#[verifier::ext_equal]
pub struct CleanupPiecesView {
    pub version: u8,
    pub address: AddressView,
    pub list_number: i64,
    pub op_id: i64,
    pub runs: Seq<Seq<i64>>,
}

impl View for PieceTextCleanupPiecesEnvelopeV1 {
    type V = CleanupPiecesView;

    open spec fn view(&self) -> CleanupPiecesView {
        CleanupPiecesView {
            version: self.version,
            address: self.address@,
            list_number: self.list_number,
            op_id: self.op_id,
            runs: removals_view(self.runs@),
        }
    }
}

impl CleanupPiecesView {
    pub open spec fn wire(self) -> PiecesWireView {
        (self.version, self.address.wire(), self.list_number, self.op_id, self.runs)
    }

    pub open spec fn of_wire(wire: PiecesWireView) -> CleanupPiecesView {
        CleanupPiecesView {
            version: wire.0,
            address: AddressView::of_wire(wire.1),
            list_number: wire.2,
            op_id: wire.3,
            runs: wire.4,
        }
    }

    /// The one way in which the envelope is written.
    pub open spec fn bytes(self) -> Seq<u8> {
        cleanup_pieces_bytes(self.wire())
    }

    /// What is wrong with the envelope by itself, if anything.
    pub open spec fn fault(self) -> Option<ChangelogError> {
        if self.version != PIECE_TEXT_CLEANUP_ENVELOPE_VERSION_V1 {
            Some(
                ChangelogError::Envelope(
                    EnvelopeFault::Version {
                        kind: EnvelopeKind::CleanupPieces,
                        version: self.version,
                    },
                ),
            )
        } else {
            match self.address.fault() {
                Some(f) => Some(ChangelogError::PieceText(f)),
                None => if self.list_number <= 0 {
                    Some(ChangelogError::Envelope(EnvelopeFault::ListNumber))
                } else if self.op_id <= 0 {
                    Some(ChangelogError::Envelope(EnvelopeFault::OpId(EnvelopeKind::CleanupPieces)))
                } else {
                    match runs_fault(self.runs) {
                        Some(f) => Some(ChangelogError::Envelope(f)),
                        None => None,
                    }
                },
            }
        }
    }

    /// The key of the changelog entry that carries the envelope.
    pub open spec fn entry_key(self) -> KeyView {
        KeyView::PieceTextCleanupPieces { address: self.address, op_id: self.op_id }
    }

    pub open spec fn key_fault(self, key: KeyView) -> Option<KeyFaultView> {
        match key {
            KeyView::PieceTextCleanupPieces { .. } => if key == self.entry_key() {
                None
            } else {
                Some(KeyFaultView::Mismatch(EntryKeyKind::CleanupPieces))
            },
            KeyView::Malformed { reason, .. } => Some(
                KeyFaultView::Unparsable { kind: EntryKeyKind::CleanupPieces, reason },
            ),
            found => Some(KeyFaultView::WrongTag { kind: EntryKeyKind::CleanupPieces, found }),
        }
    }

    /// The message that carries the envelope.
    pub open spec fn message(self) -> MessageView {
        MessageView {
            op_type: OpType::PieceTextCleanupPieces,
            tree_path: root_path(),
            entries: seq![KvView { key: self.entry_key(), value: self.bytes() }],
        }
    }
}

/// The envelope that bytes stand for. Only the one way in which an envelope is
/// written is read, and only a valid envelope.
pub open spec fn cleanup_pieces_in(bytes: Seq<u8>) -> Result<CleanupPiecesView, ErrorView> {
    match cleanup_pieces_parts(bytes) {
        Err(cause) => Err(ErrorView::Undecodable(EnvelopeKind::CleanupPieces, cause)),
        Ok((wire, left)) => {
            let envelope = CleanupPiecesView::of_wire(wire);
            if left != 0 {
                Err(
                    ErrorView::Envelope(
                        EnvelopeFault::Trailing {
                            kind: EnvelopeKind::CleanupPieces,
                            count: left as usize,
                        },
                    ),
                )
            } else if envelope.bytes() != bytes {
                Err(ErrorView::Envelope(EnvelopeFault::NotCanonical(EnvelopeKind::CleanupPieces)))
            } else {
                match envelope.fault() {
                    Some(e) => Err(e@),
                    None => Ok(envelope),
                }
            }
        },
    }
}

/// The envelope that a message carries.
pub open spec fn cleanup_pieces_in_message(message: MessageView) -> Result<CleanupPiecesView, ErrorView> {
    match message_fault(message, OpType::PieceTextCleanupPieces) {
        Some(f) => Err(ErrorView::Envelope(f)),
        None => match cleanup_pieces_in(message.entries[0].value) {
            Err(e) => Err(e),
            Ok(envelope) => match envelope.key_fault(message.entries[0].key) {
                Some(f) => Err(ErrorView::KeyMismatch(f)),
                None => Ok(envelope),
            },
        },
    }
}

/// An envelope is read from no other bytes than those it is written as, and only
/// if nothing is wrong with it.
pub proof fn law_decoded_cleanup_pieces_is_canonical(bytes: Seq<u8>)
    ensures
        cleanup_pieces_in(bytes) matches Ok(envelope) ==> envelope.bytes() == bytes
            && envelope.fault() is None,
{
}

impl PieceTextCleanupPiecesEnvelopeV1 {
    /// Checks everything that can be checked without the tree.
    pub fn validate_shape(&self) -> (r: Result<(), ChangelogError>)
        ensures
            r == (match self@.fault() {
                Some(e) => Err::<(), ChangelogError>(e),
                None => Ok(()),
            }),
    {
        if self.version != PIECE_TEXT_CLEANUP_ENVELOPE_VERSION_V1 {
            return Err(
                ChangelogError::Envelope(
                    EnvelopeFault::Version {
                        kind: EnvelopeKind::CleanupPieces,
                        version: self.version,
                    },
                ),
            );
        }
        self.address.validate()?;
        if self.list_number <= 0 {
            return Err(ChangelogError::Envelope(EnvelopeFault::ListNumber));
        }
        if self.op_id <= 0 {
            return Err(
                ChangelogError::Envelope(EnvelopeFault::OpId(EnvelopeKind::CleanupPieces)),
            );
        }
        validate_runs(&self.runs)
    }

    /// The bytes of the envelope.
    pub fn canonical_bytes(&self) -> (r: Result<Vec<u8>, ChangelogError>)
        ensures
            r matches Ok(bytes) && bytes@ == self@.bytes(),
            self@.fault() is None ==> cleanup_pieces_in(self@.bytes()) == Ok::<CleanupPiecesView, ErrorView>(
                self@,
            ),
    {
        let mut runs: Vec<Vec<i64>> = Vec::new();
        let mut i: usize = 0;
        while i < self.runs.len()
            invariant
                i <= self.runs.len(),
                runs.len() == i,
                forall|j: int| 0 <= j < i ==> (#[trigger] runs@[j])@ == self.runs@[j].removals@,
            decreases self.runs.len() - i,
        {
            let mut removals: Vec<i64> = Vec::new();
            removals.extend_from_slice(self.runs[i].removals.as_slice());
            assert(removals@ =~= self.runs@[i as int].removals@);
            runs.push(removals);
            i = i + 1;
        }
        assert(runs_view(runs@) =~= self@.runs);
        match encode_cleanup_pieces(
            self.version,
            self.address.table.as_str(),
            self.address.row_id,
            self.address.column.as_str(),
            self.list_number,
            self.op_id,
            &runs,
        )
        {
            Some(bytes) => Ok(bytes),
            None => Err(
                ChangelogError::Envelope(EnvelopeFault::Unserializable(EnvelopeKind::CleanupPieces)),
            ),
        }
    }

    /// Reads an envelope.
    pub fn from_canonical_bytes(bytes: &[u8]) -> (r: Result<Self, ChangelogError>)
        ensures
            match cleanup_pieces_in(bytes@) {
                Ok(envelope) => r matches Ok(e) && e@ == envelope,
                Err(e) => r matches Err(x) && x@ == e,
            },
    {
        let (wire, left) = match decode_cleanup_pieces(bytes) {
            Ok(decoded) => decoded,
            Err(cause) => {
                return Err(ChangelogError::Undecodable(EnvelopeKind::CleanupPieces, cause));
            },
        };
        if left != 0 {
            return Err(
                ChangelogError::Envelope(
                    EnvelopeFault::Trailing { kind: EnvelopeKind::CleanupPieces, count: left },
                ),
            );
        }
        let mut runs: Vec<PieceTextCleanupRunV1> = Vec::new();
        let mut i: usize = 0;
        while i < wire.4.len()
            invariant
                i <= wire.4.len(),
                runs.len() == i,
                forall|j: int| 0 <= j < i ==> (#[trigger] runs@[j]).removals@ == wire.4@[j]@,
            decreases wire.4.len() - i,
        {
            let mut removals: Vec<i64> = Vec::new();
            removals.extend_from_slice(wire.4[i].as_slice());
            assert(removals@ =~= wire.4@[i as int]@);
            runs.push(PieceTextCleanupRunV1 { removals });
            i = i + 1;
        }
        assert(removals_view(runs@) =~= runs_view(wire.4@));
        let envelope = PieceTextCleanupPiecesEnvelopeV1 {
            version: wire.0,
            address: PieceTextAddress { table: wire.1.0, row_id: wire.1.1, column: wire.1.2 },
            list_number: wire.2,
            op_id: wire.3,
            runs,
        };
        let canonical = envelope.canonical_bytes()?;
        if !same_bytes(canonical.as_slice(), bytes) {
            return Err(
                ChangelogError::Envelope(EnvelopeFault::NotCanonical(EnvelopeKind::CleanupPieces)),
            );
        }
        envelope.validate_shape()?;
        Ok(envelope)
    }

    /// Checks that an entry's key is that of the envelope.
    pub fn validate_entry_key(&self, key: &StorageKey) -> (r: Result<(), ChangelogError>)
        ensures
            match self@.key_fault(key@) {
                Some(f) => r matches Err(x) && x@ == ErrorView::KeyMismatch(f),
                None => r is Ok,
            },
    {
        match key {
            StorageKey::PieceTextCleanupPieces { address, op_id } => {
                if address.same(&self.address) && *op_id == self.op_id {
                    Ok(())
                } else {
                    Err(
                        ChangelogError::KeyMismatch(KeyFault::Mismatch(EntryKeyKind::CleanupPieces)),
                    )
                }
            },
            StorageKey::Malformed { reason, .. } => Err(
                ChangelogError::KeyMismatch(
                    KeyFault::Unparsable { kind: EntryKeyKind::CleanupPieces, reason: reason.clone() },
                ),
            ),
            _ => Err(
                ChangelogError::KeyMismatch(
                    KeyFault::WrongTag { kind: EntryKeyKind::CleanupPieces, found: clone_key(key) },
                ),
            ),
        }
    }

    /// The envelope that a changelog entry carries.
    pub fn decode_from_entry(entry: &ChangelogEntry) -> (r: Result<Self, ChangelogError>)
        ensures
            match cleanup_pieces_in_message(entry.message@) {
                Ok(envelope) => r matches Ok(e) && e@ == envelope,
                Err(e) => r matches Err(x) && x@ == e,
            },
    {
        check_message(&entry.message, OpType::PieceTextCleanupPieces)?;
        let kv = &entry.message.entries[0];
        assert(entry.message@.entries[0] == kv@);
        let envelope = Self::from_canonical_bytes(kv.value.as_slice())?;
        envelope.validate_entry_key(&kv.key)?;
        Ok(envelope)
    }

    /// The one entry of the message that carries the envelope.
    pub fn changelog_entry_kv(&self) -> (r: Result<KvData, ChangelogError>)
        ensures
            r matches Ok(kv) && kv@ == (KvView { key: self@.entry_key(), value: self@.bytes() }),
            self@.fault() is None ==> cleanup_pieces_in(self@.bytes()) == Ok::<CleanupPiecesView, ErrorView>(
                self@,
            ),
    {
        Ok(
            KvData {
                key: StorageKey::PieceTextCleanupPieces {
                    address: self.address.duplicate(),
                    op_id: self.op_id,
                },
                value: self.canonical_bytes()?,
            },
        )
    }

    /// The message that carries the envelope.
    pub fn changelog_message(&self) -> (r: Result<LogMessage, ChangelogError>)
        ensures
            r matches Ok(message) && message@ == self@.message(),
            self@.fault() is None ==> cleanup_pieces_in_message(self@.message()) == Ok::<
                CleanupPiecesView,
                ErrorView,
            >(self@),
    {
        let kv = self.changelog_entry_kv()?;
        let message = LogMessage {
            op_type: OpType::PieceTextCleanupPieces,
            tree_path: root_tree_path(),
            entries: vec![kv],
        };
        assert(message@.entries =~= self@.message().entries);
        Ok(message)
    }
}

// ---------- cleanups of buffers ----------

/// A cleanup of a document's buffers that no row refers to any more.
#[derive(Clone, Debug, PartialEq, Eq)]
pub struct PieceTextCleanupBuffersEnvelopeV1 {
    pub version: u8,
    pub address: PieceTextAddress,
    pub op_id: i64,
    /// In ascending order.
    pub buffer_removals: Vec<i64>,
}

#[verifier::ext_equal]
pub struct CleanupBuffersView {
    pub version: u8,
    pub address: AddressView,
    pub op_id: i64,
    pub buffer_removals: Seq<i64>,
}

impl View for PieceTextCleanupBuffersEnvelopeV1 {
    type V = CleanupBuffersView;

    open spec fn view(&self) -> CleanupBuffersView {
        CleanupBuffersView {
            version: self.version,
            address: self.address@,
            op_id: self.op_id,
            buffer_removals: self.buffer_removals@,
        }
    }
}

impl CleanupBuffersView {
    pub open spec fn wire(self) -> BuffersWireView {
        (self.version, self.address.wire(), self.op_id, self.buffer_removals)
    }

    pub open spec fn of_wire(wire: BuffersWireView) -> CleanupBuffersView {
        CleanupBuffersView {
            version: wire.0,
            address: AddressView::of_wire(wire.1),
            op_id: wire.2,
            buffer_removals: wire.3,
        }
    }

    /// The one way in which the envelope is written.
    pub open spec fn bytes(self) -> Seq<u8> {
        cleanup_buffers_bytes(self.wire())
    }

    /// What is wrong with the envelope by itself, if anything.
    pub open spec fn fault(self) -> Option<ChangelogError> {
        if self.version != PIECE_TEXT_CLEANUP_ENVELOPE_VERSION_V1 {
            Some(
                ChangelogError::Envelope(
                    EnvelopeFault::Version {
                        kind: EnvelopeKind::CleanupBuffers,
                        version: self.version,
                    },
                ),
            )
        } else {
            match self.address.fault() {
                Some(f) => Some(ChangelogError::PieceText(f)),
                None => if self.op_id <= 0 {
                    Some(
                        ChangelogError::Envelope(EnvelopeFault::OpId(EnvelopeKind::CleanupBuffers)),
                    )
                } else {
                    match buffer_removals_fault(self.buffer_removals) {
                        Some(f) => Some(ChangelogError::Envelope(f)),
                        None => None,
                    }
                },
            }
        }
    }

    /// The key of the changelog entry that carries the envelope.
    pub open spec fn entry_key(self) -> KeyView {
        KeyView::PieceTextCleanupBuffers { address: self.address, op_id: self.op_id }
    }

    pub open spec fn key_fault(self, key: KeyView) -> Option<KeyFaultView> {
        match key {
            KeyView::PieceTextCleanupBuffers { .. } => if key == self.entry_key() {
                None
            } else {
                Some(KeyFaultView::Mismatch(EntryKeyKind::CleanupBuffers))
            },
            KeyView::Malformed { reason, .. } => Some(
                KeyFaultView::Unparsable { kind: EntryKeyKind::CleanupBuffers, reason },
            ),
            found => Some(KeyFaultView::WrongTag { kind: EntryKeyKind::CleanupBuffers, found }),
        }
    }

    /// The message that carries the envelope.
    pub open spec fn message(self) -> MessageView {
        MessageView {
            op_type: OpType::PieceTextCleanupBuffers,
            tree_path: root_path(),
            entries: seq![KvView { key: self.entry_key(), value: self.bytes() }],
        }
    }
}

/// The envelope that bytes stand for. Only the one way in which an envelope is
/// written is read, and only a valid envelope.
pub open spec fn cleanup_buffers_in(bytes: Seq<u8>) -> Result<CleanupBuffersView, ErrorView> {
    match cleanup_buffers_parts(bytes) {
        Err(cause) => Err(ErrorView::Undecodable(EnvelopeKind::CleanupBuffers, cause)),
        Ok((wire, left)) => {
            let envelope = CleanupBuffersView::of_wire(wire);
            if left != 0 {
                Err(
                    ErrorView::Envelope(
                        EnvelopeFault::Trailing {
                            kind: EnvelopeKind::CleanupBuffers,
                            count: left as usize,
                        },
                    ),
                )
            } else if envelope.bytes() != bytes {
                Err(ErrorView::Envelope(EnvelopeFault::NotCanonical(EnvelopeKind::CleanupBuffers)))
            } else {
                match envelope.fault() {
                    Some(e) => Err(e@),
                    None => Ok(envelope),
                }
            }
        },
    }
}

/// The envelope that a message carries.
pub open spec fn cleanup_buffers_in_message(message: MessageView) -> Result<CleanupBuffersView, ErrorView> {
    match message_fault(message, OpType::PieceTextCleanupBuffers) {
        Some(f) => Err(ErrorView::Envelope(f)),
        None => match cleanup_buffers_in(message.entries[0].value) {
            Err(e) => Err(e),
            Ok(envelope) => match envelope.key_fault(message.entries[0].key) {
                Some(f) => Err(ErrorView::KeyMismatch(f)),
                None => Ok(envelope),
            },
        },
    }
}

/// An envelope is read from no other bytes than those it is written as, and only
/// if nothing is wrong with it.
pub proof fn law_decoded_cleanup_buffers_is_canonical(bytes: Seq<u8>)
    ensures
        cleanup_buffers_in(bytes) matches Ok(envelope) ==> envelope.bytes() == bytes
            && envelope.fault() is None,
{
}

impl PieceTextCleanupBuffersEnvelopeV1 {
    /// Checks everything that can be checked without the tree.
    pub fn validate_shape(&self) -> (r: Result<(), ChangelogError>)
        ensures
            r == (match self@.fault() {
                Some(e) => Err::<(), ChangelogError>(e),
                None => Ok(()),
            }),
    {
        if self.version != PIECE_TEXT_CLEANUP_ENVELOPE_VERSION_V1 {
            return Err(
                ChangelogError::Envelope(
                    EnvelopeFault::Version {
                        kind: EnvelopeKind::CleanupBuffers,
                        version: self.version,
                    },
                ),
            );
        }
        self.address.validate()?;
        if self.op_id <= 0 {
            return Err(
                ChangelogError::Envelope(EnvelopeFault::OpId(EnvelopeKind::CleanupBuffers)),
            );
        }
        if self.buffer_removals.len() == 0 {
            return Err(ChangelogError::Envelope(EnvelopeFault::NoBuffers));
        }
        validate_strictly_ascending_positive(&self.buffer_removals)
    }

    /// The bytes of the envelope.
    pub fn canonical_bytes(&self) -> (r: Result<Vec<u8>, ChangelogError>)
        ensures
            r matches Ok(bytes) && bytes@ == self@.bytes(),
            self@.fault() is None ==> cleanup_buffers_in(self@.bytes()) == Ok::<CleanupBuffersView, ErrorView>(
                self@,
            ),
    {
        match encode_cleanup_buffers(
            self.version,
            self.address.table.as_str(),
            self.address.row_id,
            self.address.column.as_str(),
            self.op_id,
            &self.buffer_removals,
        )
        {
            Some(bytes) => Ok(bytes),
            None => Err(
                ChangelogError::Envelope(EnvelopeFault::Unserializable(EnvelopeKind::CleanupBuffers)),
            ),
        }
    }

    /// Reads an envelope.
    pub fn from_canonical_bytes(bytes: &[u8]) -> (r: Result<Self, ChangelogError>)
        ensures
            match cleanup_buffers_in(bytes@) {
                Ok(envelope) => r matches Ok(e) && e@ == envelope,
                Err(e) => r matches Err(x) && x@ == e,
            },
    {
        let (wire, left) = match decode_cleanup_buffers(bytes) {
            Ok(decoded) => decoded,
            Err(cause) => {
                return Err(ChangelogError::Undecodable(EnvelopeKind::CleanupBuffers, cause));
            },
        };
        if left != 0 {
            return Err(
                ChangelogError::Envelope(
                    EnvelopeFault::Trailing { kind: EnvelopeKind::CleanupBuffers, count: left },
                ),
            );
        }
        let envelope = PieceTextCleanupBuffersEnvelopeV1 {
            version: wire.0,
            address: PieceTextAddress { table: wire.1.0, row_id: wire.1.1, column: wire.1.2 },
            op_id: wire.2,
            buffer_removals: wire.3,
        };
        let canonical = envelope.canonical_bytes()?;
        if !same_bytes(canonical.as_slice(), bytes) {
            return Err(
                ChangelogError::Envelope(EnvelopeFault::NotCanonical(EnvelopeKind::CleanupBuffers)),
            );
        }
        envelope.validate_shape()?;
        Ok(envelope)
    }

    /// Checks that an entry's key is that of the envelope.
    pub fn validate_entry_key(&self, key: &StorageKey) -> (r: Result<(), ChangelogError>)
        ensures
            match self@.key_fault(key@) {
                Some(f) => r matches Err(x) && x@ == ErrorView::KeyMismatch(f),
                None => r is Ok,
            },
    {
        match key {
            StorageKey::PieceTextCleanupBuffers { address, op_id } => {
                if address.same(&self.address) && *op_id == self.op_id {
                    Ok(())
                } else {
                    Err(
                        ChangelogError::KeyMismatch(KeyFault::Mismatch(EntryKeyKind::CleanupBuffers)),
                    )
                }
            },
            StorageKey::Malformed { reason, .. } => Err(
                ChangelogError::KeyMismatch(
                    KeyFault::Unparsable { kind: EntryKeyKind::CleanupBuffers, reason: reason.clone() },
                ),
            ),
            _ => Err(
                ChangelogError::KeyMismatch(
                    KeyFault::WrongTag { kind: EntryKeyKind::CleanupBuffers, found: clone_key(key) },
                ),
            ),
        }
    }

    /// The envelope that a changelog entry carries.
    pub fn decode_from_entry(entry: &ChangelogEntry) -> (r: Result<Self, ChangelogError>)
        ensures
            match cleanup_buffers_in_message(entry.message@) {
                Ok(envelope) => r matches Ok(e) && e@ == envelope,
                Err(e) => r matches Err(x) && x@ == e,
            },
    {
        check_message(&entry.message, OpType::PieceTextCleanupBuffers)?;
        let kv = &entry.message.entries[0];
        assert(entry.message@.entries[0] == kv@);
        let envelope = Self::from_canonical_bytes(kv.value.as_slice())?;
        envelope.validate_entry_key(&kv.key)?;
        Ok(envelope)
    }

    /// The one entry of the message that carries the envelope.
    pub fn changelog_entry_kv(&self) -> (r: Result<KvData, ChangelogError>)
        ensures
            r matches Ok(kv) && kv@ == (KvView { key: self@.entry_key(), value: self@.bytes() }),
            self@.fault() is None ==> cleanup_buffers_in(self@.bytes()) == Ok::<CleanupBuffersView, ErrorView>(
                self@,
            ),
    {
        Ok(
            KvData {
                key: StorageKey::PieceTextCleanupBuffers {
                    address: self.address.duplicate(),
                    op_id: self.op_id,
                },
                value: self.canonical_bytes()?,
            },
        )
    }

    /// The message that carries the envelope.
    pub fn changelog_message(&self) -> (r: Result<LogMessage, ChangelogError>)
        ensures
            r matches Ok(message) && message@ == self@.message(),
            self@.fault() is None ==> cleanup_buffers_in_message(self@.message()) == Ok::<
                CleanupBuffersView,
                ErrorView,
            >(self@),
    {
        let kv = self.changelog_entry_kv()?;
        let message = LogMessage {
            op_type: OpType::PieceTextCleanupBuffers,
            tree_path: root_tree_path(),
            entries: vec![kv],
        };
        assert(message@.entries =~= self@.message().entries);
        Ok(message)
    }
}

} // verus!
