//! Piece-text values: coordinates, edit manifests and the edit envelope.
//!
//! Buffer plaintext is UTF-32LE, so every Unicode scalar takes four bytes. The
//! library sees byte lengths and positions, never plaintext; that no piece
//! boundary splits a scalar is the statement that all of them are multiples of
//! [`PIECE_TEXT_UTF32_BYTES_PER_SCALAR`].

use vstd::prelude::*;

use crate::changelog::{
    check_message, message_fault, root_path, root_tree_path, ChangelogEntry, ChangelogError, ErrorView,
    KvData, KvView, LogMessage, MessageView,
};
use crate::faults::{
    EntryKeyKind, EnvelopeFault, EnvelopeKind, IdentifierKind, KeyFault, KeyFaultView, OpType,
    PieceTextFault,
};
use crate::storage::{clone_key, same_bytes, KeyView, StorageKey};
use crate::wire::{
    decode_edit, edit_bytes, edit_parts, encode_edit, EditWireView, WireAddressView, WireItem,
};

verus! {

pub const PIECE_TEXT_ENVELOPE_VERSION_V1: u8 = 1;

/// Bytes that one Unicode scalar takes in a buffer.
pub const PIECE_TEXT_UTF32_BYTES_PER_SCALAR: u32 = 4;

/// Most Unicode scalars that one buffer carries.
pub const MAX_PIECETEXT_BUFFER_CHARS: u32 = 1048576;

/// Most cleartext bytes that one inserted buffer carries.
pub const MAX_PIECETEXT_CLEAR_BUFFER_BYTES: u32 = 4194304;

/// Another name for [`MAX_PIECETEXT_CLEAR_BUFFER_BYTES`].
pub const MAX_BUFFER_LEN_BYTES: u32 = MAX_PIECETEXT_CLEAR_BUFFER_BYTES;

/// Most encrypted bytes that one inserted body has.
pub const MAX_PIECETEXT_ENCRYPTED_BODY_BYTES: usize = 262144;

/// Another name for [`MAX_PIECETEXT_ENCRYPTED_BODY_BYTES`].
pub const MAX_PIECETEXT_INSERTED_BUFFER_BYTES: usize = MAX_PIECETEXT_ENCRYPTED_BODY_BYTES;

pub const MAX_PIECETEXT_INSERTED_BUFFERS_PER_EDIT: usize = 16;

pub const MAX_PIECETEXT_OPS_PER_EDIT: usize = 256;

pub const MAX_PIECETEXT_ENVELOPE_BYTES: usize = 65536;

pub const MAX_PIECETEXT_BODY_BYTES: usize = 8388608;

/// A range of bytes of one buffer, live or deleted.
#[derive(Clone, Copy, Debug, PartialEq, Eq, Hash, Structural)]
pub struct PieceCoord {
    pub buffer_id: i64,
    pub start_byte: u32,
    pub len_bytes: u32,
    pub tombstone: bool,
}

impl PieceCoord {
    /// Where the range ends, as a number that may not fit in 32 bits.
    pub open spec fn end(self) -> int {
        self.start_byte + self.len_bytes
    }

    /// The range starts and ends between two scalars.
    pub open spec fn aligned(self) -> bool {
        self.start_byte % 4 == 0 && self.len_bytes % 4 == 0
    }

    pub open spec fn alignment_fault(self) -> Option<PieceTextFault> {
        if self.aligned() {
            None
        } else {
            Some(
                PieceTextFault::UnalignedPiece {
                    start_byte: self.start_byte,
                    len_bytes: self.len_bytes,
                },
            )
        }
    }

    /// Rejects a range that would split a scalar.
    pub fn validate_utf32_alignment(&self) -> (r: Result<(), ChangelogError>)
        ensures
            r == verdict(self.alignment_fault()),
    {
        if self.start_byte % PIECE_TEXT_UTF32_BYTES_PER_SCALAR != 0 || self.len_bytes
            % PIECE_TEXT_UTF32_BYTES_PER_SCALAR != 0 {
            return Err(
                ChangelogError::PieceText(
                    PieceTextFault::UnalignedPiece {
                        start_byte: self.start_byte,
                        len_bytes: self.len_bytes,
                    },
                ),
            );
        }
        Ok(())
    }
}

/// The result of a check that finds at most one fault.
pub open spec fn verdict(fault: Option<PieceTextFault>) -> Result<(), ChangelogError> {
    match fault {
        Some(f) => Err(ChangelogError::PieceText(f)),
        None => Ok(()),
    }
}

/// An ASCII letter or an underscore.
pub open spec fn identifier_start(c: char) -> bool {
    ('a' <= c && c <= 'z') || ('A' <= c && c <= 'Z') || c == '_'
}

/// An ASCII letter, a digit or an underscore.
pub open spec fn identifier_char(c: char) -> bool {
    identifier_start(c) || ('0' <= c && c <= '9')
}

pub open spec fn identifier_fault(kind: IdentifierKind, name: Seq<char>) -> Option<PieceTextFault> {
    if name.len() == 0 {
        Some(PieceTextFault::EmptyIdentifier(kind))
    } else if !identifier_start(name[0]) {
        Some(PieceTextFault::BadIdentifierStart(kind))
    } else if exists|i: int| 0 < i < name.len() && !identifier_char(#[trigger] name[i]) {
        Some(PieceTextFault::BadIdentifierChar(kind))
    } else {
        None
    }
}

fn validate_identifier(kind: IdentifierKind, value: &String) -> (r: Result<(), ChangelogError>)
    ensures
        r == verdict(identifier_fault(kind, value@)),
{
    let text = value.as_str();
    let n: usize = text.unicode_len();
    if n == 0 {
        return Err(ChangelogError::PieceText(PieceTextFault::EmptyIdentifier(kind)));
    }
    let mut i: usize = 0;
    for c in it: text.chars()
        invariant
            it.seq() == value@,
            i == it.index(),
            i <= n,
            n == value@.len(),
            n > 0,
            i > 0 ==> identifier_start(value@[0]),
            forall|j: int| 0 < j < i ==> identifier_char(#[trigger] value@[j]),
    {
        assert(c == value@[i as int]);
        let start = ('a' <= c && c <= 'z') || ('A' <= c && c <= 'Z') || c == '_';
        if i == 0 {
            if !start {
                return Err(ChangelogError::PieceText(PieceTextFault::BadIdentifierStart(kind)));
            }
        } else if !start && !('0' <= c && c <= '9') {
            return Err(ChangelogError::PieceText(PieceTextFault::BadIdentifierChar(kind)));
        }
        i = i + 1;
    }
    Ok(())
}

/// The cell that a document is kept in.
#[derive(Clone, Debug, PartialEq, Eq, Hash)]
pub struct PieceTextAddress {
    pub table: String,
    pub row_id: i64,
    pub column: String,
}

pub struct AddressView {
    pub table: Seq<char>,
    pub row_id: i64,
    pub column: Seq<char>,
}

impl View for PieceTextAddress {
    type V = AddressView;

    open spec fn view(&self) -> AddressView {
        AddressView { table: self.table@, row_id: self.row_id, column: self.column@ }
    }
}

impl AddressView {
    pub open spec fn fault(self) -> Option<PieceTextFault> {
        match identifier_fault(IdentifierKind::Table, self.table) {
            Some(f) => Some(f),
            None => match identifier_fault(IdentifierKind::Column, self.column) {
                Some(f) => Some(f),
                None => if self.row_id <= 0 {
                    Some(PieceTextFault::RowIdNotPositive)
                } else {
                    None
                },
            },
        }
    }
}

impl PieceTextAddress {
    /// Rejects an address that names no cell.
    pub fn validate(&self) -> (r: Result<(), ChangelogError>)
        ensures
            r == verdict(self@.fault()),
    {
        validate_identifier(IdentifierKind::Table, &self.table)?;
        validate_identifier(IdentifierKind::Column, &self.column)?;
        if self.row_id <= 0 {
            return Err(ChangelogError::PieceText(PieceTextFault::RowIdNotPositive));
        }
        Ok(())
    }

    /// Whether two addresses name the same cell.
    pub fn same(&self, other: &PieceTextAddress) -> (r: bool)
        ensures
            r == (self@ == other@),
    {
        self.table == other.table && self.row_id == other.row_id && self.column == other.column
    }

    pub fn duplicate(&self) -> (a: PieceTextAddress)
        ensures
            a == *self,
    {
        PieceTextAddress {
            table: self.table.clone(),
            row_id: self.row_id,
            column: self.column.clone(),
        }
    }
}

/// A byte position in one buffer; it stays valid while the document changes.
#[derive(Clone, Copy, Debug, PartialEq, Eq, Hash, Structural)]
pub struct BufferCoord {
    pub buffer_id: i64,
    pub byte_pos: u32,
}

impl BufferCoord {
    pub open spec fn document_start_spec() -> BufferCoord {
        BufferCoord { buffer_id: 0, byte_pos: 0 }
    }

    /// The position before everything else.
    #[verifier::when_used_as_spec(document_start_spec)]
    pub fn document_start() -> (c: BufferCoord)
        ensures
            c == Self::document_start_spec(),
    {
        BufferCoord { buffer_id: 0, byte_pos: 0 }
    }

    pub open spec fn shape_fault(self) -> Option<PieceTextFault> {
        if self.buffer_id == 0 {
            if self.byte_pos == 0 {
                None
            } else {
                Some(PieceTextFault::DocumentStartOffset)
            }
        } else if self.buffer_id < 0 {
            Some(PieceTextFault::NegativeBuffer)
        } else if self.byte_pos % 4 != 0 {
            Some(PieceTextFault::UnalignedPosition { byte_pos: self.byte_pos })
        } else {
            None
        }
    }

    /// Rejects a position that no document can have, or that splits a scalar.
    pub fn validate_shape(&self) -> (r: Result<(), ChangelogError>)
        ensures
            r == verdict(self.shape_fault()),
    {
        if self.buffer_id == 0 {
            if self.byte_pos == 0 {
                return Ok(());
            }
            return Err(ChangelogError::PieceText(PieceTextFault::DocumentStartOffset));
        }
        if self.buffer_id < 0 {
            return Err(ChangelogError::PieceText(PieceTextFault::NegativeBuffer));
        }
        if self.byte_pos % PIECE_TEXT_UTF32_BYTES_PER_SCALAR != 0 {
            return Err(
                ChangelogError::PieceText(
                    PieceTextFault::UnalignedPosition { byte_pos: self.byte_pos },
                ),
            );
        }
        Ok(())
    }
}

/// What an edit claims of one inserted buffer.
#[derive(Clone, Copy, Debug, PartialEq, Eq)]
pub struct InsertedBufferManifest {
    pub len_bytes: u32,
    pub ciphertext_len: u32,
    pub ciphertext_value_hash: [u8; 32],
}

impl InsertedBufferManifest {
    pub open spec fn fault(self) -> Option<PieceTextFault> {
        if self.len_bytes == 0 {
            Some(PieceTextFault::EmptyBuffer)
        } else if self.len_bytes > MAX_PIECETEXT_CLEAR_BUFFER_BYTES {
            Some(PieceTextFault::BufferTooLong { len_bytes: self.len_bytes })
        } else if self.len_bytes % 4 != 0 {
            Some(PieceTextFault::UnalignedBuffer { len_bytes: self.len_bytes })
        } else if self.ciphertext_len == 0 {
            Some(PieceTextFault::EmptyCiphertext)
        } else if self.ciphertext_len > MAX_PIECETEXT_ENCRYPTED_BODY_BYTES {
            Some(PieceTextFault::CiphertextTooLong { ciphertext_len: self.ciphertext_len })
        } else {
            None
        }
    }

    /// Rejects a buffer that is empty, too long or not made of whole scalars.
    pub fn validate(&self) -> (r: Result<(), ChangelogError>)
        ensures
            r == verdict(self.fault()),
    {
        if self.len_bytes == 0 {
            return Err(ChangelogError::PieceText(PieceTextFault::EmptyBuffer));
        }
        if self.len_bytes > MAX_PIECETEXT_CLEAR_BUFFER_BYTES {
            return Err(
                ChangelogError::PieceText(PieceTextFault::BufferTooLong { len_bytes: self.len_bytes }),
            );
        }
        if self.len_bytes % PIECE_TEXT_UTF32_BYTES_PER_SCALAR != 0 {
            return Err(
                ChangelogError::PieceText(
                    PieceTextFault::UnalignedBuffer { len_bytes: self.len_bytes },
                ),
            );
        }
        if self.ciphertext_len == 0 {
            return Err(ChangelogError::PieceText(PieceTextFault::EmptyCiphertext));
        }
        if self.ciphertext_len as usize > MAX_PIECETEXT_ENCRYPTED_BODY_BYTES {
            return Err(
                ChangelogError::PieceText(
                    PieceTextFault::CiphertextTooLong { ciphertext_len: self.ciphertext_len },
                ),
            );
        }
        Ok(())
    }
}

/// One step of an edit.
#[derive(Clone, Copy, Debug, PartialEq, Eq)]
pub enum PieceTextEditItemManifest {
    Insert { at: BufferCoord, inserted: InsertedBufferManifest },
    Delete { start: BufferCoord, end: BufferCoord },
}

/// How many of the steps insert something.
pub open spec fn insert_total(ops: Seq<PieceTextEditItemManifest>) -> nat
    decreases ops.len(),
{
    if ops.len() == 0 {
        0
    } else {
        insert_total(ops.drop_last()) + if ops.last() is Insert {
            1nat
        } else {
            0nat
        }
    }
}

/// The encrypted bytes that the steps insert.
pub open spec fn ciphertext_total(ops: Seq<PieceTextEditItemManifest>) -> nat
    decreases ops.len(),
{
    if ops.len() == 0 {
        0
    } else {
        ciphertext_total(ops.drop_last()) + match ops.last() {
            PieceTextEditItemManifest::Insert { inserted, .. } => inserted.ciphertext_len as nat,
            PieceTextEditItemManifest::Delete { .. } => 0nat,
        }
    }
}

pub open spec fn item_fault(op: PieceTextEditItemManifest) -> Option<PieceTextFault> {
    match op {
        PieceTextEditItemManifest::Insert { at, inserted } => match at.shape_fault() {
            Some(f) => Some(f),
            None => inserted.fault(),
        },
        PieceTextEditItemManifest::Delete { start, end } => match start.shape_fault() {
            Some(f) => Some(f),
            None => end.shape_fault(),
        },
    }
}

/// The first fault among the steps.
pub open spec fn items_fault(ops: Seq<PieceTextEditItemManifest>) -> Option<PieceTextFault>
    decreases ops.len(),
{
    if ops.len() == 0 {
        None
    } else {
        match items_fault(ops.drop_last()) {
            Some(f) => Some(f),
            None => item_fault(ops.last()),
        }
    }
}

/// What is wrong with the steps of an edit, if anything: their number, what they
/// insert, or one of them.
pub open spec fn ops_fault(ops: Seq<PieceTextEditItemManifest>) -> Option<PieceTextFault> {
    if ops.len() == 0 {
        Some(PieceTextFault::NoOps)
    } else if ops.len() > MAX_PIECETEXT_OPS_PER_EDIT {
        Some(PieceTextFault::TooManyOps { count: ops.len() as usize })
    } else if insert_total(ops) > MAX_PIECETEXT_INSERTED_BUFFERS_PER_EDIT {
        Some(PieceTextFault::TooManyInserts { count: insert_total(ops) as usize })
    } else if ciphertext_total(ops) > MAX_PIECETEXT_BODY_BYTES {
        Some(PieceTextFault::BodyBytesOverCap { total: ciphertext_total(ops) as u64 })
    } else {
        items_fault(ops)
    }
}

proof fn lemma_totals_bounded(ops: Seq<PieceTextEditItemManifest>)
    ensures
        insert_total(ops) <= ops.len(),
        ciphertext_total(ops) <= ops.len() * u32::MAX,
    decreases ops.len(),
{
    if ops.len() > 0 {
        lemma_totals_bounded(ops.drop_last());
    }
}

proof fn lemma_ciphertext_grows(ops: Seq<PieceTextEditItemManifest>, n: int)
    requires
        0 <= n <= ops.len(),
    ensures
        ciphertext_total(ops.take(n)) <= ciphertext_total(ops),
    decreases ops.len(),
{
    if n == ops.len() {
        assert(ops.take(n) =~= ops);
    } else {
        assert(ops.drop_last().take(n) =~= ops.take(n));
        lemma_ciphertext_grows(ops.drop_last(), n);
    }
}

proof fn lemma_items_fault_stop(ops: Seq<PieceTextEditItemManifest>, n: int)
    requires
        0 <= n <= ops.len(),
        items_fault(ops.take(n)) is Some,
    ensures
        items_fault(ops) == items_fault(ops.take(n)),
    decreases ops.len(),
{
    if n == ops.len() {
        assert(ops.take(n) =~= ops);
    } else {
        assert(ops.drop_last().take(n) =~= ops.take(n));
        lemma_items_fault_stop(ops.drop_last(), n);
    }
}

impl PieceTextEditItemManifest {
    fn validate(&self) -> (r: Result<(), ChangelogError>)
        ensures
            r == verdict(item_fault(*self)),
    {
        match self {
            PieceTextEditItemManifest::Insert { at, inserted } => {
                at.validate_shape()?;
                inserted.validate()
            },
            PieceTextEditItemManifest::Delete { start, end } => {
                start.validate_shape()?;
                end.validate_shape()
            },
        }
    }
}

/// The steps of an edit.
#[derive(Clone, Debug, PartialEq, Eq)]
pub struct PieceTextEditManifest {
    pub ops: Vec<PieceTextEditItemManifest>,
}

impl PieceTextEditManifest {
    /// How many of the steps insert something.
    pub fn insert_count(&self) -> (n: usize)
        ensures
            n == insert_total(self.ops@),
    {
        let mut n: usize = 0;
        let mut i: usize = 0;
        while i < self.ops.len()
            invariant
                i <= self.ops.len(),
                n <= i,
                n == insert_total(self.ops@.take(i as int)),
            decreases self.ops.len() - i,
        {
            assert(self.ops@.take(i + 1).drop_last() =~= self.ops@.take(i as int));
            if matches!(self.ops[i], PieceTextEditItemManifest::Insert { .. }) {
                n = n + 1;
            }
            i = i + 1;
        }
        assert(self.ops@.take(i as int) =~= self.ops@);
        n
    }

    fn ciphertext_sum(&self) -> (total: u64)
        requires
            ciphertext_total(self.ops@) <= u64::MAX,
        ensures
            total == ciphertext_total(self.ops@),
    {
        let mut total: u64 = 0;
        let mut i: usize = 0;
        while i < self.ops.len()
            invariant
                i <= self.ops.len(),
                total == ciphertext_total(self.ops@.take(i as int)),
                ciphertext_total(self.ops@) <= u64::MAX,
            decreases self.ops.len() - i,
        {
            proof {
                assert(self.ops@.take(i + 1).drop_last() =~= self.ops@.take(i as int));
                lemma_ciphertext_grows(self.ops@, i + 1);
            }
            if let PieceTextEditItemManifest::Insert { inserted, .. } = &self.ops[i] {
                total = total + inserted.ciphertext_len as u64;
            }
            i = i + 1;
        }
        assert(self.ops@.take(i as int) =~= self.ops@);
        total
    }

    /// The encrypted bytes that the steps insert.
    pub fn aggregate_ciphertext_len(&self) -> (total: usize)
        requires
            ciphertext_total(self.ops@) <= usize::MAX,
        ensures
            total == ciphertext_total(self.ops@),
    {
        self.ciphertext_sum() as usize
    }

    /// Rejects an edit with no steps or too many, one that inserts too much, or
    /// one with a malformed step.
    pub fn validate_size_caps(&self) -> (r: Result<(), ChangelogError>)
        ensures
            r == verdict(ops_fault(self.ops@)),
    {
        if self.ops.len() == 0 {
            return Err(ChangelogError::PieceText(PieceTextFault::NoOps));
        }
        if self.ops.len() > MAX_PIECETEXT_OPS_PER_EDIT {
            return Err(
                ChangelogError::PieceText(PieceTextFault::TooManyOps { count: self.ops.len() }),
            );
        }
        let insert_count: usize = self.insert_count();
        if insert_count > MAX_PIECETEXT_INSERTED_BUFFERS_PER_EDIT {
            return Err(
                ChangelogError::PieceText(PieceTextFault::TooManyInserts { count: insert_count }),
            );
        }
        proof {
            lemma_totals_bounded(self.ops@);
        }
        let total: u64 = self.ciphertext_sum();
        if total > MAX_PIECETEXT_BODY_BYTES as u64 {
            return Err(ChangelogError::PieceText(PieceTextFault::BodyBytesOverCap { total }));
        }
        let mut done: Result<(), ChangelogError> = Ok(());
        let mut i: usize = 0;
        while i < self.ops.len()
            invariant
                i <= self.ops.len(),
                done == verdict(items_fault(self.ops@.take(i as int))),
                done is Ok,
                ops_fault(self.ops@) == items_fault(self.ops@),
            decreases self.ops.len() - i,
        {
            proof {
                assert(self.ops@.take(i + 1).drop_last() =~= self.ops@.take(i as int));
            }
            done = self.ops[i].validate();
            if done.is_err() {
                proof {
                    lemma_items_fault_stop(self.ops@, i + 1);
                }
                return done;
            }
            i = i + 1;
        }
        assert(self.ops@.take(i as int) =~= self.ops@);
        done
    }
}

// ---------- the edit envelope ----------

/// An edit of one document, as it is written to the changelog.
#[derive(Clone, Debug, PartialEq, Eq)]
pub struct PieceTextEditEnvelopeV1 {
    pub version: u8,
    pub op_id: [u8; 16],
    pub address: PieceTextAddress,
    pub edit: PieceTextEditManifest,
}

#[verifier::ext_equal]
pub struct EnvelopeView {
    pub version: u8,
    pub op_id: Seq<u8>,
    pub address: AddressView,
    pub ops: Seq<PieceTextEditItemManifest>,
}

impl View for PieceTextEditEnvelopeV1 {
    type V = EnvelopeView;

    open spec fn view(&self) -> EnvelopeView {
        EnvelopeView {
            version: self.version,
            op_id: self.op_id@,
            address: self.address@,
            ops: self.edit.ops@,
        }
    }
}

pub open spec fn wire_item(op: PieceTextEditItemManifest) -> WireItem {
    match op {
        PieceTextEditItemManifest::Insert { at, inserted } => Ok(
            (
                (at.buffer_id, at.byte_pos),
                (inserted.len_bytes, inserted.ciphertext_len, inserted.ciphertext_value_hash),
            ),
        ),
        PieceTextEditItemManifest::Delete { start, end } => Err(
            ((start.buffer_id, start.byte_pos), (end.buffer_id, end.byte_pos)),
        ),
    }
}

pub open spec fn item_of(wire: WireItem) -> PieceTextEditItemManifest {
    match wire {
        Ok((at, inserted)) => PieceTextEditItemManifest::Insert {
            at: BufferCoord { buffer_id: at.0, byte_pos: at.1 },
            inserted: InsertedBufferManifest {
                len_bytes: inserted.0,
                ciphertext_len: inserted.1,
                ciphertext_value_hash: inserted.2,
            },
        },
        Err((start, end)) => PieceTextEditItemManifest::Delete {
            start: BufferCoord { buffer_id: start.0, byte_pos: start.1 },
            end: BufferCoord { buffer_id: end.0, byte_pos: end.1 },
        },
    }
}

fn to_wire_item(op: &PieceTextEditItemManifest) -> (w: WireItem)
    ensures
        w == wire_item(*op),
{
    match op {
        PieceTextEditItemManifest::Insert { at, inserted } => Ok(
            (
                (at.buffer_id, at.byte_pos),
                (inserted.len_bytes, inserted.ciphertext_len, inserted.ciphertext_value_hash),
            ),
        ),
        PieceTextEditItemManifest::Delete { start, end } => Err(
            ((start.buffer_id, start.byte_pos), (end.buffer_id, end.byte_pos)),
        ),
    }
}

fn from_wire_item(wire: &WireItem) -> (op: PieceTextEditItemManifest)
    ensures
        op == item_of(*wire),
{
    match wire {
        Ok((at, inserted)) => PieceTextEditItemManifest::Insert {
            at: BufferCoord { buffer_id: at.0, byte_pos: at.1 },
            inserted: InsertedBufferManifest {
                len_bytes: inserted.0,
                ciphertext_len: inserted.1,
                ciphertext_value_hash: inserted.2,
            },
        },
        Err((start, end)) => PieceTextEditItemManifest::Delete {
            start: BufferCoord { buffer_id: start.0, byte_pos: start.1 },
            end: BufferCoord { buffer_id: end.0, byte_pos: end.1 },
        },
    }
}

impl AddressView {
    pub open spec fn wire(self) -> WireAddressView {
        (self.table, self.row_id, self.column)
    }

    pub open spec fn of_wire(wire: WireAddressView) -> AddressView {
        AddressView { table: wire.0, row_id: wire.1, column: wire.2 }
    }
}

impl EnvelopeView {
    pub open spec fn wire(self) -> EditWireView {
        (
            self.version,
            self.op_id,
            self.address.wire(),
            self.ops.map_values(|op: PieceTextEditItemManifest| wire_item(op)),
        )
    }

    pub open spec fn of_wire(wire: EditWireView) -> EnvelopeView {
        EnvelopeView {
            version: wire.0,
            op_id: wire.1,
            address: AddressView::of_wire(wire.2),
            ops: wire.3.map_values(|w: WireItem| item_of(w)),
        }
    }

    /// The one way in which the envelope is written.
    pub open spec fn bytes(self) -> Seq<u8> {
        edit_bytes(self.wire())
    }

    /// What is wrong with an envelope that takes `len` bytes, if anything.
    pub open spec fn fault(self, len: int) -> Option<ChangelogError> {
        if self.version != PIECE_TEXT_ENVELOPE_VERSION_V1 {
            Some(
                ChangelogError::Envelope(
                    EnvelopeFault::Version { kind: EnvelopeKind::Edit, version: self.version },
                ),
            )
        } else {
            match self.address.fault() {
                Some(f) => Some(ChangelogError::PieceText(f)),
                None => match ops_fault(self.ops) {
                    Some(f) => Some(ChangelogError::PieceText(f)),
                    None => if len > MAX_PIECETEXT_ENVELOPE_BYTES {
                        Some(ChangelogError::Envelope(EnvelopeFault::TooLong { len: len as usize }))
                    } else {
                        None
                    },
                },
            }
        }
    }

    /// Nothing is wrong with the envelope.
    pub open spec fn valid(self) -> bool {
        self.fault(self.bytes().len() as int) is None
    }

    /// The key of the changelog entry that carries the envelope.
    pub open spec fn entry_key(self) -> KeyView {
        KeyView::PieceTextEdit { address: self.address, op_id: self.op_id }
    }

    pub open spec fn key_fault(self, key: KeyView) -> Option<KeyFaultView> {
        match key {
            KeyView::PieceTextEdit { .. } => if key == self.entry_key() {
                None
            } else {
                Some(KeyFaultView::Mismatch(EntryKeyKind::Edit))
            },
            KeyView::Malformed { reason, .. } => Some(
                KeyFaultView::Unparsable { kind: EntryKeyKind::Edit, reason },
            ),
            found => Some(KeyFaultView::WrongTag { kind: EntryKeyKind::Edit, found }),
        }
    }
}

/// The envelope that bytes stand for. Only the one way in which an envelope is
/// written is read, and only a valid envelope.
pub open spec fn decode_envelope(bytes: Seq<u8>) -> Result<EnvelopeView, ErrorView> {
    if bytes.len() > MAX_PIECETEXT_ENVELOPE_BYTES {
        Err(ErrorView::Envelope(EnvelopeFault::TooLong { len: bytes.len() as usize }))
    } else {
        match edit_parts(bytes) {
            Err(cause) => Err(ErrorView::Undecodable(EnvelopeKind::Edit, cause)),
            Ok((wire, left)) => {
                let envelope = EnvelopeView::of_wire(wire);
                if left != 0 {
                    Err(
                        ErrorView::Envelope(
                            EnvelopeFault::Trailing { kind: EnvelopeKind::Edit, count: left as usize },
                        ),
                    )
                } else if envelope.bytes() != bytes {
                    Err(ErrorView::Envelope(EnvelopeFault::NotCanonical(EnvelopeKind::Edit)))
                } else {
                    match envelope.fault(bytes.len() as int) {
                        Some(e) => Err(e@),
                        None => Ok(envelope),
                    }
                }
            },
        }
    }
}

/// The envelope that a message carries.
pub open spec fn decode_message(message: MessageView) -> Result<EnvelopeView, ErrorView> {
    match message_fault(message, OpType::PieceTextEdit) {
        Some(f) => Err(ErrorView::Envelope(f)),
        None => match decode_envelope(message.entries[0].value) {
            Err(e) => Err(e),
            Ok(envelope) => match envelope.key_fault(message.entries[0].key) {
                Some(f) => Err(ErrorView::KeyMismatch(f)),
                None => Ok(envelope),
            },
        },
    }
}

proof fn lemma_wire_round_trip(envelope: EnvelopeView)
    ensures
        EnvelopeView::of_wire(envelope.wire()) == envelope,
{
    assert(EnvelopeView::of_wire(envelope.wire()).ops =~= envelope.ops);
}

impl PieceTextEditEnvelopeV1 {
    /// Rejects an envelope that is malformed or too long.
    pub fn validate(&self) -> (r: Result<(), ChangelogError>)
        ensures
            r == (match self@.fault(self@.bytes().len() as int) {
                Some(e) => Err::<(), ChangelogError>(e),
                None => Ok(()),
            }),
    {
        self.validate_with_canonical_len(None)
    }

    fn validate_with_canonical_len(&self, canonical_len: Option<usize>) -> (r: Result<
        (),
        ChangelogError,
    >)
        ensures
            r == (match self@.fault(
                match canonical_len {
                    Some(len) => len as int,
                    None => self@.bytes().len() as int,
                },
            ) {
                Some(e) => Err::<(), ChangelogError>(e),
                None => Ok(()),
            }),
    {
        if self.version != PIECE_TEXT_ENVELOPE_VERSION_V1 {
            return Err(
                ChangelogError::Envelope(
                    EnvelopeFault::Version { kind: EnvelopeKind::Edit, version: self.version },
                ),
            );
        }
        self.address.validate()?;
        self.edit.validate_size_caps()?;
        let len: usize = match canonical_len {
            Some(len) => len,
            None => self.canonical_bytes()?.len(),
        };
        if len > MAX_PIECETEXT_ENVELOPE_BYTES {
            return Err(ChangelogError::Envelope(EnvelopeFault::TooLong { len }));
        }
        Ok(())
    }

    /// The bytes of the envelope.
    pub fn canonical_bytes(&self) -> (r: Result<Vec<u8>, ChangelogError>)
        ensures
            r matches Ok(bytes) && bytes@ == self@.bytes(),
            self@.valid() ==> decode_envelope(self@.bytes()) == Ok::<EnvelopeView, ErrorView>(
                self@,
            ),
    {
        proof {
            lemma_wire_round_trip(self@);
        }
        let mut ops: Vec<WireItem> = Vec::new();
        let mut i: usize = 0;
        while i < self.edit.ops.len()
            invariant
                i <= self.edit.ops.len(),
                ops@ == self.edit.ops@.take(i as int).map_values(
                    |op: PieceTextEditItemManifest| wire_item(op),
                ),
            decreases self.edit.ops.len() - i,
        {
            ops.push(to_wire_item(&self.edit.ops[i]));
            assert(self.edit.ops@.take(i + 1) =~= self.edit.ops@.take(i as int).push(
                self.edit.ops@[i as int],
            ));
            i = i + 1;
        }
        assert(self.edit.ops@.take(i as int) =~= self.edit.ops@);
        match encode_edit(
            self.version,
            &self.op_id,
            self.address.table.as_str(),
            self.address.row_id,
            self.address.column.as_str(),
            &ops,
        ) {
            Some(bytes) => Ok(bytes),
            None => Err(
                ChangelogError::Envelope(EnvelopeFault::Unserializable(EnvelopeKind::Edit)),
            ),
        }
    }

    /// Reads an envelope.
    pub fn from_canonical_bytes(bytes: &[u8]) -> (r: Result<Self, ChangelogError>)
        ensures
            match decode_envelope(bytes@) {
                Ok(envelope) => r matches Ok(e) && e@ == envelope,
                Err(e) => r matches Err(x) && x@ == e,
            },
    {
        if bytes.len() > MAX_PIECETEXT_ENVELOPE_BYTES {
            return Err(ChangelogError::Envelope(EnvelopeFault::TooLong { len: bytes.len() }));
        }
        let (wire, left) = match decode_edit(bytes) {
            Ok(decoded) => decoded,
            Err(cause) => {
                return Err(ChangelogError::Undecodable(EnvelopeKind::Edit, cause));
            },
        };
        if left != 0 {
            return Err(
                ChangelogError::Envelope(
                    EnvelopeFault::Trailing { kind: EnvelopeKind::Edit, count: left },
                ),
            );
        }
        let mut ops: Vec<PieceTextEditItemManifest> = Vec::new();
        let mut i: usize = 0;
        while i < wire.3.len()
            invariant
                i <= wire.3.len(),
                ops@ == wire.3@.take(i as int).map_values(|w: WireItem| item_of(w)),
            decreases wire.3.len() - i,
        {
            ops.push(from_wire_item(&wire.3[i]));
            assert(wire.3@.take(i + 1) =~= wire.3@.take(i as int).push(wire.3@[i as int]));
            i = i + 1;
        }
        assert(wire.3@.take(i as int) =~= wire.3@);
        let envelope = PieceTextEditEnvelopeV1 {
            version: wire.0,
            op_id: wire.1,
            address: PieceTextAddress { table: wire.2.0, row_id: wire.2.1, column: wire.2.2 },
            edit: PieceTextEditManifest { ops },
        };
        let canonical = envelope.canonical_bytes()?;
        if !same_bytes(canonical.as_slice(), bytes) {
            return Err(ChangelogError::Envelope(EnvelopeFault::NotCanonical(EnvelopeKind::Edit)));
        }
        envelope.validate_with_canonical_len(Some(canonical.len()))?;
        Ok(envelope)
    }

    /// Checks that an entry's key is that of the envelope.
    pub fn validate_entry_key(&self, key: &StorageKey) -> (r: Result<(), ChangelogError>)
        ensures
            match self@.key_fault(key@) {
                Some(f) => r matches Err(x) && x@ == ErrorView::KeyMismatch(f),
                None => r is Ok,
            },
    {
        match key {
            StorageKey::PieceTextEdit { address, op_id } => {
                if address.same(&self.address) && same_bytes(op_id.as_slice(), self.op_id.as_slice()) {
                    Ok(())
                } else {
                    Err(ChangelogError::KeyMismatch(KeyFault::Mismatch(EntryKeyKind::Edit)))
                }
            },
            StorageKey::Malformed { reason, .. } => Err(
                ChangelogError::KeyMismatch(
                    KeyFault::Unparsable { kind: EntryKeyKind::Edit, reason: reason.clone() },
                ),
            ),
            _ => Err(
                ChangelogError::KeyMismatch(
                    KeyFault::WrongTag { kind: EntryKeyKind::Edit, found: clone_key(key) },
                ),
            ),
        }
    }

    /// The envelope that a changelog entry carries.
    pub fn decode_from_entry(entry: &ChangelogEntry) -> (r: Result<Self, ChangelogError>)
        ensures
            match decode_message(entry.message@) {
                Ok(envelope) => r matches Ok(e) && e@ == envelope,
                Err(e) => r matches Err(x) && x@ == e,
            },
    {
        check_message(&entry.message, OpType::PieceTextEdit)?;
        let kv = &entry.message.entries[0];
        assert(entry.message@.entries[0] == kv@);
        let envelope = Self::from_canonical_bytes(kv.value.as_slice())?;
        envelope.validate_entry_key(&kv.key)?;
        Ok(envelope)
    }

    /// The one entry of the message that carries the envelope.
    pub fn changelog_entry_kv(&self) -> (r: Result<KvData, ChangelogError>)
        ensures
            r matches Ok(kv) && kv@ == (KvView { key: self@.entry_key(), value: self@.bytes() }),
            self@.valid() ==> decode_envelope(self@.bytes()) == Ok::<EnvelopeView, ErrorView>(
                self@,
            ),
    {
        Ok(
            KvData {
                key: StorageKey::PieceTextEdit {
                    address: self.address.duplicate(),
                    op_id: self.op_id,
                },
                value: self.canonical_bytes()?,
            },
        )
    }

    /// The message that carries the envelope.
    pub fn changelog_message(&self) -> (r: Result<LogMessage, ChangelogError>)
        ensures
            r matches Ok(message) && message@ == self@.message(),
            self@.valid() ==> decode_message(self@.message()) == Ok::<EnvelopeView, ErrorView>(
                self@,
            ),
    {
        let kv = self.changelog_entry_kv()?;
        let message = LogMessage {
            op_type: OpType::PieceTextEdit,
            tree_path: root_tree_path(),
            entries: vec![kv],
        };
        assert(message@.entries =~= self@.message().entries);
        Ok(message)
    }
}

impl EnvelopeView {
    /// The message that carries the envelope.
    pub open spec fn message(self) -> MessageView {
        MessageView {
            op_type: OpType::PieceTextEdit,
            tree_path: root_path(),
            entries: seq![KvView { key: self.entry_key(), value: self.bytes() }],
        }
    }
}

/// An envelope is read from no other bytes than those it is written as, and only
/// if nothing is wrong with it.
pub proof fn law_decoded_envelope_is_canonical(bytes: Seq<u8>)
    ensures
        decode_envelope(bytes) matches Ok(envelope) ==> envelope.bytes() == bytes && envelope.valid(),
{
}

/// No two byte strings are read as the same envelope.
pub proof fn law_envelope_encoding_unique(a: Seq<u8>, b: Seq<u8>)
    requires
        decode_envelope(a) is Ok,
        decode_envelope(a) == decode_envelope(b),
    ensures
        a == b,
{
}

// ---------- inserted bodies ----------

/// A body, the hash that its value is stored under, and the value.
#[derive(Clone, Debug, PartialEq, Eq)]
pub struct ValidatedPieceTextInsertedBody<T> {
    pub value_hash: [u8; 32],
    pub value: T,
}

/// What the steps claim of the buffers that they insert, in order.
pub open spec fn inserted_manifests(ops: Seq<PieceTextEditItemManifest>) -> Seq<InsertedBufferManifest>
    decreases ops.len(),
{
    if ops.len() == 0 {
        Seq::empty()
    } else {
        match ops.last() {
            PieceTextEditItemManifest::Insert { inserted, .. } => inserted_manifests(
                ops.drop_last(),
            ).push(inserted),
            PieceTextEditItemManifest::Delete { .. } => inserted_manifests(ops.drop_last()),
        }
    }
}

/// The bytes of the first `n` bodies.
pub open spec fn body_total(bodies: Seq<Vec<u8>>, n: int) -> int
    decreases n,
{
    if n <= 0 {
        0
    } else {
        body_total(bodies, n - 1) + bodies[n - 1]@.len()
    }
}

/// What is wrong with a body before its value is looked at, if anything.
pub open spec fn body_fault(manifests: Seq<InsertedBufferManifest>, bodies: Seq<Vec<u8>>, i: int) -> Option<
    EnvelopeFault,
> {
    let len = bodies[i]@.len();
    let total = body_total(bodies, i + 1);
    if total > usize::MAX {
        Some(EnvelopeFault::BodyTotalOverflow)
    } else if total > MAX_PIECETEXT_BODY_BYTES {
        Some(EnvelopeFault::BodyTotal { total: total as usize })
    } else if len > MAX_PIECETEXT_ENCRYPTED_BODY_BYTES {
        Some(EnvelopeFault::BodyTooLong { index: i as usize, len: len as usize })
    } else if len != manifests[i].ciphertext_len {
        Some(
            EnvelopeFault::BodyLength {
                index: i as usize,
                len: len as usize,
                claimed: manifests[i].ciphertext_len,
            },
        )
    } else {
        None
    }
}

pub open spec fn hash_fault(manifest: InsertedBufferManifest, i: int, value_hash: [u8; 32]) -> Option<
    EnvelopeFault,
> {
    if value_hash@ != manifest.ciphertext_value_hash@ {
        Some(
            EnvelopeFault::BodyHash {
                index: i as usize,
                found: value_hash,
                claimed: manifest.ciphertext_value_hash,
            },
        )
    } else {
        None
    }
}

/// The callback may answer with the result when it is asked for the value of a body.
pub open spec fn may_answer<T, F: FnMut(usize, &[u8]) -> Result<
    ValidatedPieceTextInsertedBody<T>,
    ChangelogError,
>>(
    value_for_body: F,
    i: int,
    body: Seq<u8>,
    answer: Result<ValidatedPieceTextInsertedBody<T>, ChangelogError>,
) -> bool {
    exists|b: &[u8]| b@ == body && #[trigger] call_ensures(value_for_body, (i as usize, b), answer)
}

/// A body is as claimed, and `body` is a value that was given for it.
pub open spec fn body_accepted<T, F: FnMut(usize, &[u8]) -> Result<
    ValidatedPieceTextInsertedBody<T>,
    ChangelogError,
>>(
    manifests: Seq<InsertedBufferManifest>,
    bodies: Seq<Vec<u8>>,
    value_for_body: F,
    i: int,
    body: ValidatedPieceTextInsertedBody<T>,
) -> bool {
    &&& body_fault(manifests, bodies, i) is None
    &&& may_answer(value_for_body, i, bodies[i]@, Ok(body))
    &&& hash_fault(manifests[i], i, body.value_hash) is None
}

/// The first bodies are as claimed, and `values` were given for them.
pub open spec fn bodies_accepted<T, F: FnMut(usize, &[u8]) -> Result<
    ValidatedPieceTextInsertedBody<T>,
    ChangelogError,
>>(
    manifests: Seq<InsertedBufferManifest>,
    bodies: Seq<Vec<u8>>,
    value_for_body: F,
    values: Seq<ValidatedPieceTextInsertedBody<T>>,
) -> bool {
    forall|i: int|
        0 <= i < values.len() ==> body_accepted(
            manifests,
            bodies,
            value_for_body,
            i,
            #[trigger] values[i],
        )
}

/// The callback is asked for the value of a body: there are as many bodies as
/// inserts, all bodies before it were accepted, and nothing is wrong with its
/// length.
pub open spec fn is_asked<T, F: FnMut(usize, &[u8]) -> Result<
    ValidatedPieceTextInsertedBody<T>,
    ChangelogError,
>>(
    manifests: Seq<InsertedBufferManifest>,
    bodies: Seq<Vec<u8>>,
    value_for_body: F,
    i: int,
    body: Seq<u8>,
) -> bool {
    &&& bodies.len() == manifests.len()
    &&& 0 <= i < bodies.len()
    &&& body == bodies[i]@
    &&& body_fault(manifests, bodies, i) is None
    &&& exists|values: Seq<ValidatedPieceTextInsertedBody<T>>|
        values.len() == i && #[trigger] bodies_accepted(manifests, bodies, value_for_body, values)
}

/// A body is refused for the reason given.
pub open spec fn body_refused<T, F: FnMut(usize, &[u8]) -> Result<
    ValidatedPieceTextInsertedBody<T>,
    ChangelogError,
>>(
    manifests: Seq<InsertedBufferManifest>,
    bodies: Seq<Vec<u8>>,
    value_for_body: F,
    i: int,
    error: ChangelogError,
) -> bool {
    match body_fault(manifests, bodies, i) {
        Some(f) => error == ChangelogError::Envelope(f),
        None => {
            ||| may_answer(value_for_body, i, bodies[i]@, Err(error))
            ||| exists|body: ValidatedPieceTextInsertedBody<T>| #[trigger]
                may_answer(value_for_body, i, bodies[i]@, Ok(body)) && (hash_fault(
                    manifests[i],
                    i,
                    body.value_hash,
                ) matches Some(f) && error == ChangelogError::Envelope(f))
        },
    }
}

/// Checks the bodies that come with an edit against what the edit claims of
/// them, one after the other. `value_for_body` gives the value of each; it is
/// asked only for a body of the right length, and no more once one was refused.
pub fn validate_piece_text_inserted_bodies<T, F>(
    envelope: &PieceTextEditEnvelopeV1,
    inserted_bodies: &[Vec<u8>],
    value_for_body: F,
) -> (r: Result<Vec<ValidatedPieceTextInsertedBody<T>>, ChangelogError>) where
    F: FnMut(usize, &[u8]) -> Result<ValidatedPieceTextInsertedBody<T>, ChangelogError>,

    requires
        forall|i: usize, body: &[u8]|
            is_asked(
                inserted_manifests(envelope.edit.ops@),
                inserted_bodies@,
                value_for_body,
                i as int,
                body@,
            ) ==> #[trigger] call_requires(value_for_body, (i, body)),
    ensures
        ({
            let manifests = inserted_manifests(envelope.edit.ops@);
            let bodies = inserted_bodies@;
            if bodies.len() != manifests.len() {
                r == Err::<Vec<ValidatedPieceTextInsertedBody<T>>, ChangelogError>(
                    ChangelogError::Envelope(
                        EnvelopeFault::BodyCount {
                            bodies: bodies.len() as usize,
                            inserts: manifests.len() as usize,
                        },
                    ),
                )
            } else {
                match r {
                    Ok(v) => v.len() == manifests.len() && bodies_accepted(
                        manifests,
                        bodies,
                        value_for_body,
                        v@,
                    ),
                    Err(e) => exists|v: Seq<ValidatedPieceTextInsertedBody<T>>|
                        v.len() < manifests.len() && bodies_accepted(
                            manifests,
                            bodies,
                            value_for_body,
                            v,
                        ) && #[trigger] body_refused(
                            manifests,
                            bodies,
                            value_for_body,
                            v.len() as int,
                            e,
                        ),
                }
            }
        }),
{
    let ghost ops = envelope.edit.ops@;
    let mut inserts: Vec<InsertedBufferManifest> = Vec::new();
    let mut i: usize = 0;
    while i < envelope.edit.ops.len()
        invariant
            i <= envelope.edit.ops.len(),
            ops == envelope.edit.ops@,
            inserts@ == inserted_manifests(ops.take(i as int)),
        decreases envelope.edit.ops.len() - i,
    {
        assert(ops.take(i + 1).drop_last() =~= ops.take(i as int));
        if let PieceTextEditItemManifest::Insert { inserted, .. } = &envelope.edit.ops[i] {
            inserts.push(*inserted);
        }
        i = i + 1;
    }
    assert(ops.take(i as int) =~= ops);
    if inserted_bodies.len() != inserts.len() {
        return Err(
            ChangelogError::Envelope(
                EnvelopeFault::BodyCount { bodies: inserted_bodies.len(), inserts: inserts.len() },
            ),
        );
    }
    let ghost manifests = inserts@;
    let ghost bodies = inserted_bodies@;
    let mut ask = value_for_body;
    let mut aggregate_len: usize = 0;
    let mut validated: Vec<ValidatedPieceTextInsertedBody<T>> = Vec::new();
    let mut k: usize = 0;
    while k < inserts.len()
        invariant
            k <= inserts.len(),
            manifests == inserts@,
            manifests == inserted_manifests(envelope.edit.ops@),
            bodies == inserted_bodies@,
            inserted_bodies.len() == inserts.len(),
            aggregate_len == body_total(bodies, k as int),
            validated.len() == k,
            forall|i: usize, body: &[u8]|
                is_asked(manifests, bodies, value_for_body, i as int, body@)
                    ==> #[trigger] call_requires(value_for_body, (i, body)),
            ask == value_for_body,
            bodies_accepted(manifests, bodies, value_for_body, validated@),
        decreases inserts.len() - k,
    {
        let manifest = inserts[k];
        let body: &[u8] = inserted_bodies[k].as_slice();
        let mut fault: Option<EnvelopeFault> = None;
        match aggregate_len.checked_add(body.len()) {
            None => {
                fault = Some(EnvelopeFault::BodyTotalOverflow);
            },
            Some(total) => {
                aggregate_len = total;
                if total > MAX_PIECETEXT_BODY_BYTES {
                    fault = Some(EnvelopeFault::BodyTotal { total });
                } else if body.len() > MAX_PIECETEXT_ENCRYPTED_BODY_BYTES {
                    fault = Some(EnvelopeFault::BodyTooLong { index: k, len: body.len() });
                } else if body.len() != manifest.ciphertext_len as usize {
                    fault = Some(
                        EnvelopeFault::BodyLength {
                            index: k,
                            len: body.len(),
                            claimed: manifest.ciphertext_len,
                        },
                    );
                }
            },
        }
        assert(fault == body_fault(manifests, bodies, k as int));
        if let Some(f) = fault {
            assert(body_refused(
                manifests,
                bodies,
                value_for_body,
                validated@.len() as int,
                ChangelogError::Envelope(f),
            ));
            return Err(ChangelogError::Envelope(f));
        }
        assert(is_asked(manifests, bodies, value_for_body, k as int, body@));
        let answer = ask(k, body);
        assert(may_answer(value_for_body, k as int, bodies[k as int]@, answer));
        let body_value = match answer {
            Ok(body_value) => body_value,
            Err(e) => {
                assert(body_refused(manifests, bodies, value_for_body, validated@.len() as int, e));
                return Err(e);
            },
        };
        if !same_bytes(
            body_value.value_hash.as_slice(),
            manifest.ciphertext_value_hash.as_slice(),
        ) {
            let error = ChangelogError::Envelope(
                EnvelopeFault::BodyHash {
                    index: k,
                    found: body_value.value_hash,
                    claimed: manifest.ciphertext_value_hash,
                },
            );
            assert(body_refused(manifests, bodies, value_for_body, validated@.len() as int, error));
            return Err(error);
        }
        validated.push(body_value);
        k = k + 1;
    }
    Ok(validated)
}

} // verus!
