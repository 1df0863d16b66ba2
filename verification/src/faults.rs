//! Everything that can be wrong with an input, and how each fault is worded.

use vstd::prelude::*;

use crate::ops::names::names_view;
use crate::piece_text::BufferCoord;
use crate::piece_text_planner::ResolvePurpose;
use crate::piece_text_resolution::Span;
use crate::storage::{KeyView, StorageKey};
use crate::wording::{list_words, words_of_list, Word};

verus! {

/// Which part of an address an identifier names.
#[derive(Clone, Copy, Debug, PartialEq, Eq, Structural)]
pub enum IdentifierKind {
    Table,
    Column,
}

impl IdentifierKind {
    pub open spec fn name_spec(self) -> &'static str {
        match self {
            IdentifierKind::Table => "table",
            IdentifierKind::Column => "column",
        }
    }

    #[verifier::when_used_as_spec(name_spec)]
    pub fn name(self) -> (s: &'static str)
        ensures
            s == self.name_spec(),
    {
        match self {
            IdentifierKind::Table => "table",
            IdentifierKind::Column => "column",
        }
    }
}

/// What is malformed about a piece-text value.
#[derive(Clone, Copy, Debug, PartialEq, Eq, Structural)]
pub enum PieceTextFault {
    UnalignedPiece { start_byte: u32, len_bytes: u32 },
    EmptyIdentifier(IdentifierKind),
    BadIdentifierStart(IdentifierKind),
    BadIdentifierChar(IdentifierKind),
    RowIdNotPositive,
    DocumentStartOffset,
    NegativeBuffer,
    UnalignedPosition { byte_pos: u32 },
    EmptyBuffer,
    BufferTooLong { len_bytes: u32 },
    UnalignedBuffer { len_bytes: u32 },
    EmptyCiphertext,
    CiphertextTooLong { ciphertext_len: u32 },
    NoOps,
    TooManyOps { count: usize },
    TooManyInserts { count: usize },
    BodyBytesOverCap { total: u64 },
}

impl PieceTextFault {
    /// What the fault's message is made of.
    pub open spec fn words(self) -> Seq<Word> {
        match self {
            PieceTextFault::UnalignedPiece { start_byte, len_bytes } => seq![
                Word::Lit("_piecetext_pieces coord is not UTF-32 aligned (start_byte="),
                Word::Num(start_byte as i64), Word::Lit(", len_bytes="),
                Word::Num(len_bytes as i64), Word::Lit("); both must be multiples of 4"),
            ],
            PieceTextFault::EmptyIdentifier(inner) => seq![
                Word::Lit("PieceTextAddress."), Word::Lit(inner.name()),
                Word::Lit(" must not be empty"),
            ],
            PieceTextFault::BadIdentifierStart(inner) => seq![
                Word::Lit("PieceTextAddress."), Word::Lit(inner.name()),
                Word::Lit(" must start with an ASCII letter or underscore"),
            ],
            PieceTextFault::BadIdentifierChar(inner) => seq![
                Word::Lit("PieceTextAddress."), Word::Lit(inner.name()),
                Word::Lit(" must contain only ASCII letters, digits, or underscores"),
            ],
            PieceTextFault::RowIdNotPositive => seq![
                Word::Lit("PieceTextAddress.row_id must be greater than 0"),
            ],
            PieceTextFault::DocumentStartOffset => seq![
                Word::Lit("DOCUMENT_START coordinate must use byte_pos 0"),
            ],
            PieceTextFault::NegativeBuffer => seq![
                Word::Lit("BufferCoord.buffer_id must be positive or DOCUMENT_START"),
            ],
            PieceTextFault::UnalignedPosition { byte_pos } => seq![
                Word::Lit("BufferCoord.byte_pos "), Word::Num(byte_pos as i64),
                Word::Lit(" is not a multiple of 4 (UTF-32 scalar boundary)"),
            ],
            PieceTextFault::EmptyBuffer => seq![
                Word::Lit("Inserted buffer len_bytes must be greater than 0"),
            ],
            PieceTextFault::BufferTooLong { len_bytes } => seq![
                Word::Lit("Inserted buffer len_bytes "), Word::Num(len_bytes as i64),
                Word::Lit(" exceeds MAX_PIECETEXT_CLEAR_BUFFER_BYTES 4194304"),
            ],
            PieceTextFault::UnalignedBuffer { len_bytes } => seq![
                Word::Lit("Inserted buffer len_bytes "), Word::Num(len_bytes as i64),
                Word::Lit(" is not a multiple of 4 (UTF-32 scalar boundary)"),
            ],
            PieceTextFault::EmptyCiphertext => seq![
                Word::Lit("Inserted buffer ciphertext_len must be greater than 0"),
            ],
            PieceTextFault::CiphertextTooLong { ciphertext_len } => seq![
                Word::Lit("Inserted buffer ciphertext_len "),
                Word::Num(ciphertext_len as i64),
                Word::Lit(" exceeds MAX_PIECETEXT_ENCRYPTED_BODY_BYTES 262144"),
            ],
            PieceTextFault::NoOps => seq![
                Word::Lit("PieceTextEditManifest.ops must not be empty"),
            ],
            PieceTextFault::TooManyOps { count } => seq![
                Word::Lit("PieceTextEditManifest has "), Word::Count(count),
                Word::Lit(" ops, exceeding MAX_PIECETEXT_OPS_PER_EDIT 256"),
            ],
            PieceTextFault::TooManyInserts { count } => seq![
                Word::Lit("PieceTextEditManifest has "), Word::Count(count),
                Word::Lit(" inserted buffers, exceeding MAX_PIECETEXT_INSERTED_BUFFERS_PER_EDIT 16"),
            ],
            PieceTextFault::BodyBytesOverCap { total } => seq![
                Word::Lit("PieceTextEditManifest body bytes "), Word::Wide(total),
                Word::Lit(" exceeds MAX_PIECETEXT_BODY_BYTES 8388608"),
            ],
        }
    }

    pub fn to_words(&self) -> (v: Vec<Word>)
        ensures
            v@ =~= self.words(),
    {
        match *self {
            PieceTextFault::UnalignedPiece { start_byte, len_bytes } => vec![
                Word::Lit("_piecetext_pieces coord is not UTF-32 aligned (start_byte="),
                Word::Num(start_byte as i64), Word::Lit(", len_bytes="),
                Word::Num(len_bytes as i64), Word::Lit("); both must be multiples of 4"),
            ],
            PieceTextFault::EmptyIdentifier(inner) => vec![
                Word::Lit("PieceTextAddress."), Word::Lit(inner.name()),
                Word::Lit(" must not be empty"),
            ],
            PieceTextFault::BadIdentifierStart(inner) => vec![
                Word::Lit("PieceTextAddress."), Word::Lit(inner.name()),
                Word::Lit(" must start with an ASCII letter or underscore"),
            ],
            PieceTextFault::BadIdentifierChar(inner) => vec![
                Word::Lit("PieceTextAddress."), Word::Lit(inner.name()),
                Word::Lit(" must contain only ASCII letters, digits, or underscores"),
            ],
            PieceTextFault::RowIdNotPositive => vec![
                Word::Lit("PieceTextAddress.row_id must be greater than 0"),
            ],
            PieceTextFault::DocumentStartOffset => vec![
                Word::Lit("DOCUMENT_START coordinate must use byte_pos 0"),
            ],
            PieceTextFault::NegativeBuffer => vec![
                Word::Lit("BufferCoord.buffer_id must be positive or DOCUMENT_START"),
            ],
            PieceTextFault::UnalignedPosition { byte_pos } => vec![
                Word::Lit("BufferCoord.byte_pos "), Word::Num(byte_pos as i64),
                Word::Lit(" is not a multiple of 4 (UTF-32 scalar boundary)"),
            ],
            PieceTextFault::EmptyBuffer => vec![
                Word::Lit("Inserted buffer len_bytes must be greater than 0"),
            ],
            PieceTextFault::BufferTooLong { len_bytes } => vec![
                Word::Lit("Inserted buffer len_bytes "), Word::Num(len_bytes as i64),
                Word::Lit(" exceeds MAX_PIECETEXT_CLEAR_BUFFER_BYTES 4194304"),
            ],
            PieceTextFault::UnalignedBuffer { len_bytes } => vec![
                Word::Lit("Inserted buffer len_bytes "), Word::Num(len_bytes as i64),
                Word::Lit(" is not a multiple of 4 (UTF-32 scalar boundary)"),
            ],
            PieceTextFault::EmptyCiphertext => vec![
                Word::Lit("Inserted buffer ciphertext_len must be greater than 0"),
            ],
            PieceTextFault::CiphertextTooLong { ciphertext_len } => vec![
                Word::Lit("Inserted buffer ciphertext_len "),
                Word::Num(ciphertext_len as i64),
                Word::Lit(" exceeds MAX_PIECETEXT_ENCRYPTED_BODY_BYTES 262144"),
            ],
            PieceTextFault::NoOps => vec![
                Word::Lit("PieceTextEditManifest.ops must not be empty"),
            ],
            PieceTextFault::TooManyOps { count } => vec![
                Word::Lit("PieceTextEditManifest has "), Word::Count(count),
                Word::Lit(" ops, exceeding MAX_PIECETEXT_OPS_PER_EDIT 256"),
            ],
            PieceTextFault::TooManyInserts { count } => vec![
                Word::Lit("PieceTextEditManifest has "), Word::Count(count),
                Word::Lit(" inserted buffers, exceeding MAX_PIECETEXT_INSERTED_BUFFERS_PER_EDIT 16"),
            ],
            PieceTextFault::BodyBytesOverCap { total } => vec![
                Word::Lit("PieceTextEditManifest body bytes "), Word::Wide(total),
                Word::Lit(" exceeds MAX_PIECETEXT_BODY_BYTES 8388608"),
            ],
        }
    }
}

/// What a walk along the chain was looking for.
#[derive(Clone, Copy, Debug, PartialEq, Eq, Structural)]
pub enum WalkKind {
    Canonical,
    Order,
    FirstLive,
    LastLive,
    NextLive,
    Interior,
}

impl WalkKind {
    pub open spec fn name_spec(self) -> &'static str {
        match self {
            WalkKind::Canonical => "delete canonicalisation walk",
            WalkKind::Order => "delete order walk",
            WalkKind::FirstLive => "first-live-row walk",
            WalkKind::LastLive => "last-live-row walk",
            WalkKind::NextLive => "next-live-row walk",
            WalkKind::Interior => "delete interior walk",
        }
    }

    #[verifier::when_used_as_spec(name_spec)]
    pub fn name(self) -> (s: &'static str)
        ensures
            s == self.name_spec(),
    {
        match self {
            WalkKind::Canonical => "delete canonicalisation walk",
            WalkKind::Order => "delete order walk",
            WalkKind::FirstLive => "first-live-row walk",
            WalkKind::LastLive => "last-live-row walk",
            WalkKind::NextLive => "next-live-row walk",
            WalkKind::Interior => "delete interior walk",
        }
    }
}

/// Which endpoint of an edit operation a coordinate is.
#[derive(Clone, Copy, Debug, PartialEq, Eq, Structural)]
pub enum EndpointRole {
    Insert,
    DeleteStart,
    DeleteEnd,
}

impl EndpointRole {
    pub open spec fn name_spec(self) -> &'static str {
        match self {
            EndpointRole::Insert => "targets",
            EndpointRole::DeleteStart => "delete start targets",
            EndpointRole::DeleteEnd => "delete end targets",
        }
    }

    #[verifier::when_used_as_spec(name_spec)]
    pub fn name(self) -> (s: &'static str)
        ensures
            s == self.name_spec(),
    {
        match self {
            EndpointRole::Insert => "targets",
            EndpointRole::DeleteStart => "delete start targets",
            EndpointRole::DeleteEnd => "delete end targets",
        }
    }
}

/// Why a coordinate cannot be resolved or an edit cannot be planned.
#[derive(Clone, Copy, Debug, PartialEq, Eq, Structural)]
pub enum EditFault {
    BufferNotPositive { buffer_id: i64 },
    UnknownCoordinate { coord: BufferCoord, purpose: ResolvePurpose },
    CandidateInOtherList { buffer_id: i64, row_id: i64, found_list: i64, list_number: i64 },
    ZeroLength { row_id: i64 },
    RangeOverflow { row_id: i64 },
    Overlap { left: Span, right: Span, buffer_id: i64 },
    HopsOverflow,
    ClampNotHead { row_id: i64, head_id: i64 },
    ClampNotTail { row_id: i64, tail_id: i64 },
    ClampInOtherList { row_id: i64, found_list: i64, list_number: i64 },
    ClampNextMismatch { row_id: i64, next_id: i64, expected: i64 },
    ClampPrevMismatch { row_id: i64, prev_id: i64, expected: i64 },
    HeadHasPrev { row_id: i64, prev_id: i64 },
    TailHasNext { row_id: i64, next_id: i64 },
    PrevMismatch { row_id: i64, prev_id: i64, expected: i64 },
    NextMismatch { row_id: i64, next_id: i64, expected: i64 },
    NotHead { row_id: i64, head_id: i64 },
    NotTail { row_id: i64, tail_id: i64 },
    InsertClampedForward { at: BufferCoord },
    DeleteStartClampedBackward,
    DeleteEndClampedForward,
    WalkTooLong(WalkKind),
    StartPastEnd,
    EndUnreachable,
    PieceIdOverflow,
    BufferIdOverflow,
    RowIdNotPositive { row_id: i64 },
    DoubleAllocated { row_id: i64 },
    OtherList { row_id: i64, found_list: i64, list_number: i64 },
    ListNumberNotPositive { list_number: i64 },
    PieceNextIdTooSmall { next_id: i64 },
    BuffersNextIdTooSmall { next_id: i64 },
    NegativeEndpoint { head_id: i64, tail_id: i64 },
    EndpointsDisagree { head_id: i64, tail_id: i64 },
    EndpointPastNext { head_id: i64, tail_id: i64, next_id: i64 },
    EmptyInsert,
    InsertTooLong { len_bytes: u32 },
    SameEditBuffer { index: usize, role: EndpointRole, buffer_id: i64 },
}

impl EditFault {
    /// What the fault's message is made of.
    pub open spec fn words(self) -> Seq<Word> {
        match self {
            EditFault::BufferNotPositive { buffer_id } => seq![
                Word::Lit("non-DOCUMENT_START coordinate must reference buffer_id > 0, got "),
                Word::Num(buffer_id),
            ],
            EditFault::UnknownCoordinate { coord, purpose } => seq![
                Word::Lit("unknown coordinate (buffer_id="), Word::Num(coord.buffer_id),
                Word::Lit(", byte_pos="), Word::Num(coord.byte_pos as i64),
                Word::Lit(", purpose="), Word::Lit(purpose.name()),
                Word::Lit("): no live or tombstoned piece covers this byte coordinate"),
            ],
            EditFault::CandidateInOtherList { buffer_id, row_id, found_list, list_number } => seq![
                Word::Lit("piece-text coord buffer_id="), Word::Num(buffer_id),
                Word::Lit(" resolves to _piecetext_pieces row "), Word::Num(row_id),
                Word::Lit(" in list "), Word::Num(found_list),
                Word::Lit(" but caller requested list "), Word::Num(list_number),
            ],
            EditFault::ZeroLength { row_id } => seq![
                Word::Lit("_piecetext_pieces row "), Word::Num(row_id),
                Word::Lit(" has zero len_bytes"),
            ],
            EditFault::RangeOverflow { row_id } => seq![
                Word::Lit("_piecetext_pieces row "), Word::Num(row_id),
                Word::Lit(" range overflows"),
            ],
            EditFault::Overlap { left, right, buffer_id } => seq![
                Word::Lit("piece-text coord contradiction: _piecetext_pieces rows "),
                Word::Num(left.id), Word::Lit(" ["), Word::Num(left.start as i64),
                Word::Lit(", "), Word::Num(left.end as i64), Word::Lit(") and "),
                Word::Num(right.id), Word::Lit(" ["), Word::Num(right.start as i64),
                Word::Lit(", "), Word::Num(right.end as i64),
                Word::Lit(") overlap for buffer_id "), Word::Num(buffer_id),
            ],
            EditFault::HopsOverflow => seq![Word::Lit("tombstone clamp hop counter overflowed")],
            EditFault::ClampNotHead { row_id, head_id } => seq![
                Word::Lit("tombstone clamp contradiction: row "), Word::Num(row_id),
                Word::Lit(" has prev_id 0 but is not the document head "),
                Word::Num(head_id),
            ],
            EditFault::ClampNotTail { row_id, tail_id } => seq![
                Word::Lit("tombstone clamp contradiction: row "), Word::Num(row_id),
                Word::Lit(" has next_id 0 but is not the document tail "),
                Word::Num(tail_id),
            ],
            EditFault::ClampInOtherList { row_id, found_list, list_number } => seq![
                Word::Lit("tombstone clamp contradiction: row "), Word::Num(row_id),
                Word::Lit(" is in list "), Word::Num(found_list),
                Word::Lit(" but clamp walk for list "), Word::Num(list_number),
                Word::Lit(" reached it"),
            ],
            EditFault::ClampNextMismatch { row_id, next_id, expected } => seq![
                Word::Lit("tombstone clamp contradiction: row "), Word::Num(row_id),
                Word::Lit(".next_id="), Word::Num(next_id), Word::Lit(" but expected "),
                Word::Num(expected),
            ],
            EditFault::ClampPrevMismatch { row_id, prev_id, expected } => seq![
                Word::Lit("tombstone clamp contradiction: row "), Word::Num(row_id),
                Word::Lit(".prev_id="), Word::Num(prev_id), Word::Lit(" but expected "),
                Word::Num(expected),
            ],
            EditFault::HeadHasPrev { row_id, prev_id } => seq![
                Word::Lit("head row "), Word::Num(row_id),
                Word::Lit(" has non-zero prev_id "), Word::Num(prev_id),
            ],
            EditFault::TailHasNext { row_id, next_id } => seq![
                Word::Lit("tail row "), Word::Num(row_id),
                Word::Lit(" has non-zero next_id "), Word::Num(next_id),
            ],
            EditFault::PrevMismatch { row_id, prev_id, expected } => seq![
                Word::Lit("row "), Word::Num(row_id), Word::Lit(".prev_id="),
                Word::Num(prev_id), Word::Lit(" but expected "), Word::Num(expected),
            ],
            EditFault::NextMismatch { row_id, next_id, expected } => seq![
                Word::Lit("row "), Word::Num(row_id), Word::Lit(".next_id="),
                Word::Num(next_id), Word::Lit(" but expected "), Word::Num(expected),
            ],
            EditFault::NotHead { row_id, head_id } => seq![
                Word::Lit("row "), Word::Num(row_id),
                Word::Lit(" has prev_id 0 but is not head "), Word::Num(head_id),
            ],
            EditFault::NotTail { row_id, tail_id } => seq![
                Word::Lit("row "), Word::Num(row_id),
                Word::Lit(" has next_id 0 but is not tail "), Word::Num(tail_id),
            ],
            EditFault::InsertClampedForward { at } => seq![
                Word::Lit("insert at BufferCoord { buffer_id: "), Word::Num(at.buffer_id),
                Word::Lit(", byte_pos: "), Word::Num(at.byte_pos as i64),
                Word::Lit(" } forward-clamped past tail; InsertAnchor should back-clamp"),
            ],
            EditFault::DeleteStartClampedBackward => seq![
                Word::Lit("DeleteStart should never produce a backward clamp result"),
            ],
            EditFault::DeleteEndClampedForward => seq![
                Word::Lit("DeleteEnd should never produce a forward clamp result"),
            ],
            EditFault::WalkTooLong(inner) => seq![
                Word::Lit(inner.name()), Word::Lit(" exceeded document length"),
            ],
            EditFault::StartPastEnd => seq![Word::Lit("delete start resolved past delete end")],
            EditFault::EndUnreachable => seq![
                Word::Lit("delete end row not reachable from first row"),
            ],
            EditFault::PieceIdOverflow => seq![
                Word::Lit("_piecetext_pieces next_id counter overflowed i64"),
            ],
            EditFault::BufferIdOverflow => seq![
                Word::Lit("_piecetext_buffers next_id counter overflowed i64"),
            ],
            EditFault::RowIdNotPositive { row_id } => seq![
                Word::Lit("inserted row id must be positive, got "), Word::Num(row_id),
            ],
            EditFault::DoubleAllocated { row_id } => seq![
                Word::Lit("double-allocated piece row id "), Word::Num(row_id),
            ],
            EditFault::OtherList { row_id, found_list, list_number } => seq![
                Word::Lit("_piecetext_pieces row "), Word::Num(row_id),
                Word::Lit(" belongs to list "), Word::Num(found_list),
                Word::Lit(" but this edit targets list "), Word::Num(list_number),
            ],
            EditFault::ListNumberNotPositive { list_number } => seq![
                Word::Lit("list_number must be positive, got "), Word::Num(list_number),
            ],
            EditFault::PieceNextIdTooSmall { next_id } => seq![
                Word::Lit("pre_piece_next_id must be >= 1, got "), Word::Num(next_id),
            ],
            EditFault::BuffersNextIdTooSmall { next_id } => seq![
                Word::Lit("pre_buffers_next_id must be >= 1, got "), Word::Num(next_id),
            ],
            EditFault::NegativeEndpoint { head_id, tail_id } => seq![
                Word::Lit("head_id/tail_id must be non-negative, got head="),
                Word::Num(head_id), Word::Lit(" tail="), Word::Num(tail_id),
            ],
            EditFault::EndpointsDisagree { head_id, tail_id } => seq![
                Word::Lit("head_id and tail_id must both be 0 or both be non-zero, got head="),
                Word::Num(head_id), Word::Lit(" tail="), Word::Num(tail_id),
            ],
            EditFault::EndpointPastNext { head_id, tail_id, next_id } => seq![
                Word::Lit("head_id/tail_id must be < pre_piece_next_id "),
                Word::Num(next_id), Word::Lit(", got head="), Word::Num(head_id),
                Word::Lit(" tail="), Word::Num(tail_id),
            ],
            EditFault::EmptyInsert => seq![Word::Lit("Insert.len_bytes must be > 0")],
            EditFault::InsertTooLong { len_bytes } => seq![
                Word::Lit("Insert.len_bytes "), Word::Num(len_bytes as i64),
                Word::Lit(" exceeds MAX_BUFFER_LEN_BYTES 4194304"),
            ],
            EditFault::SameEditBuffer { index, role, buffer_id } => seq![
                Word::Lit("edit op "), Word::Count(index), Word::Lit(" "),
                Word::Lit(role.name()), Word::Lit(" buffer_id "), Word::Num(buffer_id),
                Word::Lit(" allocated by an earlier Insert in this same edit"),
            ],
        }
    }

    pub fn to_words(&self) -> (v: Vec<Word>)
        ensures
            v@ =~= self.words(),
    {
        match *self {
            EditFault::BufferNotPositive { buffer_id } => vec![
                Word::Lit("non-DOCUMENT_START coordinate must reference buffer_id > 0, got "),
                Word::Num(buffer_id),
            ],
            EditFault::UnknownCoordinate { coord, purpose } => vec![
                Word::Lit("unknown coordinate (buffer_id="), Word::Num(coord.buffer_id),
                Word::Lit(", byte_pos="), Word::Num(coord.byte_pos as i64),
                Word::Lit(", purpose="), Word::Lit(purpose.name()),
                Word::Lit("): no live or tombstoned piece covers this byte coordinate"),
            ],
            EditFault::CandidateInOtherList { buffer_id, row_id, found_list, list_number } => vec![
                Word::Lit("piece-text coord buffer_id="), Word::Num(buffer_id),
                Word::Lit(" resolves to _piecetext_pieces row "), Word::Num(row_id),
                Word::Lit(" in list "), Word::Num(found_list),
                Word::Lit(" but caller requested list "), Word::Num(list_number),
            ],
            EditFault::ZeroLength { row_id } => vec![
                Word::Lit("_piecetext_pieces row "), Word::Num(row_id),
                Word::Lit(" has zero len_bytes"),
            ],
            EditFault::RangeOverflow { row_id } => vec![
                Word::Lit("_piecetext_pieces row "), Word::Num(row_id),
                Word::Lit(" range overflows"),
            ],
            EditFault::Overlap { left, right, buffer_id } => vec![
                Word::Lit("piece-text coord contradiction: _piecetext_pieces rows "),
                Word::Num(left.id), Word::Lit(" ["), Word::Num(left.start as i64),
                Word::Lit(", "), Word::Num(left.end as i64), Word::Lit(") and "),
                Word::Num(right.id), Word::Lit(" ["), Word::Num(right.start as i64),
                Word::Lit(", "), Word::Num(right.end as i64),
                Word::Lit(") overlap for buffer_id "), Word::Num(buffer_id),
            ],
            EditFault::HopsOverflow => vec![Word::Lit("tombstone clamp hop counter overflowed")],
            EditFault::ClampNotHead { row_id, head_id } => vec![
                Word::Lit("tombstone clamp contradiction: row "), Word::Num(row_id),
                Word::Lit(" has prev_id 0 but is not the document head "),
                Word::Num(head_id),
            ],
            EditFault::ClampNotTail { row_id, tail_id } => vec![
                Word::Lit("tombstone clamp contradiction: row "), Word::Num(row_id),
                Word::Lit(" has next_id 0 but is not the document tail "),
                Word::Num(tail_id),
            ],
            EditFault::ClampInOtherList { row_id, found_list, list_number } => vec![
                Word::Lit("tombstone clamp contradiction: row "), Word::Num(row_id),
                Word::Lit(" is in list "), Word::Num(found_list),
                Word::Lit(" but clamp walk for list "), Word::Num(list_number),
                Word::Lit(" reached it"),
            ],
            EditFault::ClampNextMismatch { row_id, next_id, expected } => vec![
                Word::Lit("tombstone clamp contradiction: row "), Word::Num(row_id),
                Word::Lit(".next_id="), Word::Num(next_id), Word::Lit(" but expected "),
                Word::Num(expected),
            ],
            EditFault::ClampPrevMismatch { row_id, prev_id, expected } => vec![
                Word::Lit("tombstone clamp contradiction: row "), Word::Num(row_id),
                Word::Lit(".prev_id="), Word::Num(prev_id), Word::Lit(" but expected "),
                Word::Num(expected),
            ],
            EditFault::HeadHasPrev { row_id, prev_id } => vec![
                Word::Lit("head row "), Word::Num(row_id),
                Word::Lit(" has non-zero prev_id "), Word::Num(prev_id),
            ],
            EditFault::TailHasNext { row_id, next_id } => vec![
                Word::Lit("tail row "), Word::Num(row_id),
                Word::Lit(" has non-zero next_id "), Word::Num(next_id),
            ],
            EditFault::PrevMismatch { row_id, prev_id, expected } => vec![
                Word::Lit("row "), Word::Num(row_id), Word::Lit(".prev_id="),
                Word::Num(prev_id), Word::Lit(" but expected "), Word::Num(expected),
            ],
            EditFault::NextMismatch { row_id, next_id, expected } => vec![
                Word::Lit("row "), Word::Num(row_id), Word::Lit(".next_id="),
                Word::Num(next_id), Word::Lit(" but expected "), Word::Num(expected),
            ],
            EditFault::NotHead { row_id, head_id } => vec![
                Word::Lit("row "), Word::Num(row_id),
                Word::Lit(" has prev_id 0 but is not head "), Word::Num(head_id),
            ],
            EditFault::NotTail { row_id, tail_id } => vec![
                Word::Lit("row "), Word::Num(row_id),
                Word::Lit(" has next_id 0 but is not tail "), Word::Num(tail_id),
            ],
            EditFault::InsertClampedForward { at } => vec![
                Word::Lit("insert at BufferCoord { buffer_id: "), Word::Num(at.buffer_id),
                Word::Lit(", byte_pos: "), Word::Num(at.byte_pos as i64),
                Word::Lit(" } forward-clamped past tail; InsertAnchor should back-clamp"),
            ],
            EditFault::DeleteStartClampedBackward => vec![
                Word::Lit("DeleteStart should never produce a backward clamp result"),
            ],
            EditFault::DeleteEndClampedForward => vec![
                Word::Lit("DeleteEnd should never produce a forward clamp result"),
            ],
            EditFault::WalkTooLong(inner) => vec![
                Word::Lit(inner.name()), Word::Lit(" exceeded document length"),
            ],
            EditFault::StartPastEnd => vec![Word::Lit("delete start resolved past delete end")],
            EditFault::EndUnreachable => vec![
                Word::Lit("delete end row not reachable from first row"),
            ],
            EditFault::PieceIdOverflow => vec![
                Word::Lit("_piecetext_pieces next_id counter overflowed i64"),
            ],
            EditFault::BufferIdOverflow => vec![
                Word::Lit("_piecetext_buffers next_id counter overflowed i64"),
            ],
            EditFault::RowIdNotPositive { row_id } => vec![
                Word::Lit("inserted row id must be positive, got "), Word::Num(row_id),
            ],
            EditFault::DoubleAllocated { row_id } => vec![
                Word::Lit("double-allocated piece row id "), Word::Num(row_id),
            ],
            EditFault::OtherList { row_id, found_list, list_number } => vec![
                Word::Lit("_piecetext_pieces row "), Word::Num(row_id),
                Word::Lit(" belongs to list "), Word::Num(found_list),
                Word::Lit(" but this edit targets list "), Word::Num(list_number),
            ],
            EditFault::ListNumberNotPositive { list_number } => vec![
                Word::Lit("list_number must be positive, got "), Word::Num(list_number),
            ],
            EditFault::PieceNextIdTooSmall { next_id } => vec![
                Word::Lit("pre_piece_next_id must be >= 1, got "), Word::Num(next_id),
            ],
            EditFault::BuffersNextIdTooSmall { next_id } => vec![
                Word::Lit("pre_buffers_next_id must be >= 1, got "), Word::Num(next_id),
            ],
            EditFault::NegativeEndpoint { head_id, tail_id } => vec![
                Word::Lit("head_id/tail_id must be non-negative, got head="),
                Word::Num(head_id), Word::Lit(" tail="), Word::Num(tail_id),
            ],
            EditFault::EndpointsDisagree { head_id, tail_id } => vec![
                Word::Lit("head_id and tail_id must both be 0 or both be non-zero, got head="),
                Word::Num(head_id), Word::Lit(" tail="), Word::Num(tail_id),
            ],
            EditFault::EndpointPastNext { head_id, tail_id, next_id } => vec![
                Word::Lit("head_id/tail_id must be < pre_piece_next_id "),
                Word::Num(next_id), Word::Lit(", got head="), Word::Num(head_id),
                Word::Lit(" tail="), Word::Num(tail_id),
            ],
            EditFault::EmptyInsert => vec![Word::Lit("Insert.len_bytes must be > 0")],
            EditFault::InsertTooLong { len_bytes } => vec![
                Word::Lit("Insert.len_bytes "), Word::Num(len_bytes as i64),
                Word::Lit(" exceeds MAX_BUFFER_LEN_BYTES 4194304"),
            ],
            EditFault::SameEditBuffer { index, role, buffer_id } => vec![
                Word::Lit("edit op "), Word::Count(index), Word::Lit(" "),
                Word::Lit(role.name()), Word::Lit(" buffer_id "), Word::Num(buffer_id),
                Word::Lit(" allocated by an earlier Insert in this same edit"),
            ],
        }
    }
}

/// Why a snapshot of a document is not one.
#[derive(Clone, Copy, Debug, PartialEq, Eq, Structural)]
pub enum SnapshotFault {
    PieceNextId,
    BuffersNextId,
    ListNumber,
    RowIdNotPositive { row_id: i64 },
    RowIdPastNext { row_id: i64, next_id: i64 },
    ZeroLength { row_id: i64 },
    DuplicateRow { row_id: i64 },
    HeadAbsent { head_id: i64 },
    HeadHasPrev { head_id: i64, prev_id: i64 },
    TailAbsent { tail_id: i64 },
    TailHasNext { tail_id: i64, next_id: i64 },
    EndpointsDisagree,
    PrevAbsent { row_id: i64, prev_id: i64 },
    NextAbsent { row_id: i64, next_id: i64 },
    LinksInconsistent { row_id: i64 },
    NotHead { row_id: i64 },
    NotTail { row_id: i64 },
    BufferIdNotPositive { buffer_id: i64 },
    BufferIdPastNext { buffer_id: i64, next_id: i64 },
    BufferLength { buffer_id: i64, len_bytes: u32 },
    DuplicateBuffer { buffer_id: i64 },
    BufferAbsent { row_id: i64, buffer_id: i64 },
    RangeOverflow { row_id: i64 },
    RangePastBuffer { row_id: i64, buffer_id: i64, end: u32, len_bytes: u32 },
    RowAbsent { row_id: i64 },
    ChainTooLong,
    Chain(EditFault),
}

impl SnapshotFault {
    /// What the fault's message is made of.
    pub open spec fn words(self) -> Seq<Word> {
        match self {
            SnapshotFault::PieceNextId => seq![Word::Lit("pre_piece_next_id must be >= 1")],
            SnapshotFault::BuffersNextId => seq![Word::Lit("pre_buffers_next_id must be >= 1")],
            SnapshotFault::ListNumber => seq![Word::Lit("list_number must be positive")],
            SnapshotFault::RowIdNotPositive { row_id } => seq![
                Word::Lit("piece row id must be positive (got "), Word::Num(row_id),
                Word::Lit(")"),
            ],
            SnapshotFault::RowIdPastNext { row_id, next_id } => seq![
                Word::Lit("piece row id "), Word::Num(row_id),
                Word::Lit(" is >= pre_piece_next_id "), Word::Num(next_id),
            ],
            SnapshotFault::ZeroLength { row_id } => seq![
                Word::Lit("piece row "), Word::Num(row_id), Word::Lit(" has len_bytes == 0"),
            ],
            SnapshotFault::DuplicateRow { row_id } => seq![
                Word::Lit("duplicate piece row id "), Word::Num(row_id),
                Word::Lit(" in snapshot"),
            ],
            SnapshotFault::HeadAbsent { head_id } => seq![
                Word::Lit("head_id "), Word::Num(head_id), Word::Lit(" not in snapshot"),
            ],
            SnapshotFault::HeadHasPrev { head_id, prev_id } => seq![
                Word::Lit("head row "), Word::Num(head_id),
                Word::Lit(" has non-zero prev_id "), Word::Num(prev_id),
            ],
            SnapshotFault::TailAbsent { tail_id } => seq![
                Word::Lit("tail_id "), Word::Num(tail_id), Word::Lit(" not in snapshot"),
            ],
            SnapshotFault::TailHasNext { tail_id, next_id } => seq![
                Word::Lit("tail row "), Word::Num(tail_id),
                Word::Lit(" has non-zero next_id "), Word::Num(next_id),
            ],
            SnapshotFault::EndpointsDisagree => seq![
                Word::Lit("head_id and tail_id must both be 0 or both be non-zero"),
            ],
            SnapshotFault::PrevAbsent { row_id, prev_id } => seq![
                Word::Lit("row "), Word::Num(row_id), Word::Lit(" prev_id "),
                Word::Num(prev_id), Word::Lit(" not in snapshot"),
            ],
            SnapshotFault::NextAbsent { row_id, next_id } => seq![
                Word::Lit("row "), Word::Num(row_id), Word::Lit(" next_id "),
                Word::Num(next_id), Word::Lit(" not in snapshot"),
            ],
            SnapshotFault::LinksInconsistent { row_id } => seq![
                Word::Lit("row "), Word::Num(row_id),
                Word::Lit(" prev/next pointers inconsistent"),
            ],
            SnapshotFault::NotHead { row_id } => seq![
                Word::Lit("row "), Word::Num(row_id),
                Word::Lit(" has prev_id 0 but is not head"),
            ],
            SnapshotFault::NotTail { row_id } => seq![
                Word::Lit("row "), Word::Num(row_id),
                Word::Lit(" has next_id 0 but is not tail"),
            ],
            SnapshotFault::BufferIdNotPositive { buffer_id } => seq![
                Word::Lit("buffer id must be positive (got "), Word::Num(buffer_id),
                Word::Lit(")"),
            ],
            SnapshotFault::BufferIdPastNext { buffer_id, next_id } => seq![
                Word::Lit("buffer id "), Word::Num(buffer_id),
                Word::Lit(" is >= pre_buffers_next_id "), Word::Num(next_id),
            ],
            SnapshotFault::BufferLength { buffer_id, len_bytes } => seq![
                Word::Lit("buffer "), Word::Num(buffer_id),
                Word::Lit(" has invalid len_bytes "), Word::Num(len_bytes as i64),
            ],
            SnapshotFault::DuplicateBuffer { buffer_id } => seq![
                Word::Lit("duplicate buffer id "), Word::Num(buffer_id),
                Word::Lit(" in snapshot"),
            ],
            SnapshotFault::BufferAbsent { row_id, buffer_id } => seq![
                Word::Lit("piece row "), Word::Num(row_id),
                Word::Lit(" references buffer_id "), Word::Num(buffer_id),
                Word::Lit(" not in snapshot"),
            ],
            SnapshotFault::RangeOverflow { row_id } => seq![
                Word::Lit("piece row "), Word::Num(row_id), Word::Lit(" coord overflow"),
            ],
            SnapshotFault::RangePastBuffer { row_id, buffer_id, end, len_bytes } => seq![
                Word::Lit("piece row "), Word::Num(row_id),
                Word::Lit(" range exceeds buffer "), Word::Num(buffer_id),
                Word::Lit(" len_bytes ("), Word::Num(end as i64), Word::Lit(" > "),
                Word::Num(len_bytes as i64), Word::Lit(")"),
            ],
            SnapshotFault::RowAbsent { row_id } => seq![
                Word::Lit("row "), Word::Num(row_id), Word::Lit(" not in working copy"),
            ],
            SnapshotFault::ChainTooLong => seq![Word::Lit("chain walk exceeded snapshot length")],
            SnapshotFault::Chain(inner) => inner.words(),
        }
    }

    pub fn to_words(&self) -> (v: Vec<Word>)
        ensures
            v@ =~= self.words(),
    {
        match *self {
            SnapshotFault::PieceNextId => vec![Word::Lit("pre_piece_next_id must be >= 1")],
            SnapshotFault::BuffersNextId => vec![Word::Lit("pre_buffers_next_id must be >= 1")],
            SnapshotFault::ListNumber => vec![Word::Lit("list_number must be positive")],
            SnapshotFault::RowIdNotPositive { row_id } => vec![
                Word::Lit("piece row id must be positive (got "), Word::Num(row_id),
                Word::Lit(")"),
            ],
            SnapshotFault::RowIdPastNext { row_id, next_id } => vec![
                Word::Lit("piece row id "), Word::Num(row_id),
                Word::Lit(" is >= pre_piece_next_id "), Word::Num(next_id),
            ],
            SnapshotFault::ZeroLength { row_id } => vec![
                Word::Lit("piece row "), Word::Num(row_id), Word::Lit(" has len_bytes == 0"),
            ],
            SnapshotFault::DuplicateRow { row_id } => vec![
                Word::Lit("duplicate piece row id "), Word::Num(row_id),
                Word::Lit(" in snapshot"),
            ],
            SnapshotFault::HeadAbsent { head_id } => vec![
                Word::Lit("head_id "), Word::Num(head_id), Word::Lit(" not in snapshot"),
            ],
            SnapshotFault::HeadHasPrev { head_id, prev_id } => vec![
                Word::Lit("head row "), Word::Num(head_id),
                Word::Lit(" has non-zero prev_id "), Word::Num(prev_id),
            ],
            SnapshotFault::TailAbsent { tail_id } => vec![
                Word::Lit("tail_id "), Word::Num(tail_id), Word::Lit(" not in snapshot"),
            ],
            SnapshotFault::TailHasNext { tail_id, next_id } => vec![
                Word::Lit("tail row "), Word::Num(tail_id),
                Word::Lit(" has non-zero next_id "), Word::Num(next_id),
            ],
            SnapshotFault::EndpointsDisagree => vec![
                Word::Lit("head_id and tail_id must both be 0 or both be non-zero"),
            ],
            SnapshotFault::PrevAbsent { row_id, prev_id } => vec![
                Word::Lit("row "), Word::Num(row_id), Word::Lit(" prev_id "),
                Word::Num(prev_id), Word::Lit(" not in snapshot"),
            ],
            SnapshotFault::NextAbsent { row_id, next_id } => vec![
                Word::Lit("row "), Word::Num(row_id), Word::Lit(" next_id "),
                Word::Num(next_id), Word::Lit(" not in snapshot"),
            ],
            SnapshotFault::LinksInconsistent { row_id } => vec![
                Word::Lit("row "), Word::Num(row_id),
                Word::Lit(" prev/next pointers inconsistent"),
            ],
            SnapshotFault::NotHead { row_id } => vec![
                Word::Lit("row "), Word::Num(row_id),
                Word::Lit(" has prev_id 0 but is not head"),
            ],
            SnapshotFault::NotTail { row_id } => vec![
                Word::Lit("row "), Word::Num(row_id),
                Word::Lit(" has next_id 0 but is not tail"),
            ],
            SnapshotFault::BufferIdNotPositive { buffer_id } => vec![
                Word::Lit("buffer id must be positive (got "), Word::Num(buffer_id),
                Word::Lit(")"),
            ],
            SnapshotFault::BufferIdPastNext { buffer_id, next_id } => vec![
                Word::Lit("buffer id "), Word::Num(buffer_id),
                Word::Lit(" is >= pre_buffers_next_id "), Word::Num(next_id),
            ],
            SnapshotFault::BufferLength { buffer_id, len_bytes } => vec![
                Word::Lit("buffer "), Word::Num(buffer_id),
                Word::Lit(" has invalid len_bytes "), Word::Num(len_bytes as i64),
            ],
            SnapshotFault::DuplicateBuffer { buffer_id } => vec![
                Word::Lit("duplicate buffer id "), Word::Num(buffer_id),
                Word::Lit(" in snapshot"),
            ],
            SnapshotFault::BufferAbsent { row_id, buffer_id } => vec![
                Word::Lit("piece row "), Word::Num(row_id),
                Word::Lit(" references buffer_id "), Word::Num(buffer_id),
                Word::Lit(" not in snapshot"),
            ],
            SnapshotFault::RangeOverflow { row_id } => vec![
                Word::Lit("piece row "), Word::Num(row_id), Word::Lit(" coord overflow"),
            ],
            SnapshotFault::RangePastBuffer { row_id, buffer_id, end, len_bytes } => vec![
                Word::Lit("piece row "), Word::Num(row_id),
                Word::Lit(" range exceeds buffer "), Word::Num(buffer_id),
                Word::Lit(" len_bytes ("), Word::Num(end as i64), Word::Lit(" > "),
                Word::Num(len_bytes as i64), Word::Lit(")"),
            ],
            SnapshotFault::RowAbsent { row_id } => vec![
                Word::Lit("row "), Word::Num(row_id), Word::Lit(" not in working copy"),
            ],
            SnapshotFault::ChainTooLong => vec![Word::Lit("chain walk exceeded snapshot length")],
            SnapshotFault::Chain(inner) => inner.to_words(),
        }
    }
}

/// Which value of the tree a read is about.
#[derive(Clone, Copy, Debug, PartialEq, Eq, Structural)]
pub enum CellKind {
    ListNumber,
    PrevId,
    NextId,
    BufferId,
    StartByte,
    LenBytes,
    Tombstone,
    Head,
    Tail,
    EditHead,
    EditTail,
    CleanupHead,
    CleanupTail,
    Parent,
    ParentCell,
    OwnerTable,
    OwnerRowId,
    OwnerColumn,
    AuthorId,
    BufferLen,
}

impl CellKind {
    pub open spec fn name_spec(self) -> &'static str {
        match self {
            CellKind::ListNumber => "list_number",
            CellKind::PrevId => "prev_id",
            CellKind::NextId => "next_id",
            CellKind::BufferId => "buffer_id",
            CellKind::StartByte => "start_byte",
            CellKind::LenBytes => "len_bytes",
            CellKind::Tombstone => "tombstone",
            CellKind::Head => "piece_coords_head_key",
            CellKind::Tail => "piece_coords_tail_key",
            CellKind::EditHead => "head",
            CellKind::EditTail => "tail",
            CellKind::CleanupHead => "piece_coords head",
            CellKind::CleanupTail => "piece_coords tail",
            CellKind::Parent => "piece_coords_parent_key",
            CellKind::ParentCell => "parent PieceText cell",
            CellKind::OwnerTable => "owner_table",
            CellKind::OwnerRowId => "owner_row_id",
            CellKind::OwnerColumn => "owner_column",
            CellKind::AuthorId => "author_id",
            CellKind::BufferLen => "len_bytes",
        }
    }

    #[verifier::when_used_as_spec(name_spec)]
    pub fn name(self) -> (s: &'static str)
        ensures
            s == self.name_spec(),
    {
        match self {
            CellKind::ListNumber => "list_number",
            CellKind::PrevId => "prev_id",
            CellKind::NextId => "next_id",
            CellKind::BufferId => "buffer_id",
            CellKind::StartByte => "start_byte",
            CellKind::LenBytes => "len_bytes",
            CellKind::Tombstone => "tombstone",
            CellKind::Head => "piece_coords_head_key",
            CellKind::Tail => "piece_coords_tail_key",
            CellKind::EditHead => "head",
            CellKind::EditTail => "tail",
            CellKind::CleanupHead => "piece_coords head",
            CellKind::CleanupTail => "piece_coords tail",
            CellKind::Parent => "piece_coords_parent_key",
            CellKind::ParentCell => "parent PieceText cell",
            CellKind::OwnerTable => "owner_table",
            CellKind::OwnerRowId => "owner_row_id",
            CellKind::OwnerColumn => "owner_column",
            CellKind::AuthorId => "author_id",
            CellKind::BufferLen => "len_bytes",
        }
    }
}

/// One value of the tree: its kind, and the row or list that it belongs to.
#[derive(Clone, Copy, Debug, PartialEq, Eq, Structural)]
pub struct Cell {
    pub kind: CellKind,
    pub id: i64,
}

impl CellKind {
    /// A column of the table of pieces.
    pub open spec fn of_piece_spec(self) -> bool {
        matches!(
            self,
            CellKind::ListNumber | CellKind::PrevId | CellKind::NextId | CellKind::BufferId
                | CellKind::StartByte | CellKind::LenBytes | CellKind::Tombstone
        )
    }

    #[verifier::when_used_as_spec(of_piece_spec)]
    pub fn of_piece(self) -> (b: bool)
        ensures
            b == self.of_piece_spec(),
    {
        matches!(
            self,
            CellKind::ListNumber | CellKind::PrevId | CellKind::NextId | CellKind::BufferId
                | CellKind::StartByte | CellKind::LenBytes | CellKind::Tombstone
        )
    }

    /// A column of the table of buffers.
    pub open spec fn of_buffer_spec(self) -> bool {
        matches!(
            self,
            CellKind::OwnerTable | CellKind::OwnerRowId | CellKind::OwnerColumn
                | CellKind::AuthorId | CellKind::BufferLen
        )
    }

    #[verifier::when_used_as_spec(of_buffer_spec)]
    pub fn of_buffer(self) -> (b: bool)
        ensures
            b == self.of_buffer_spec(),
    {
        matches!(
            self,
            CellKind::OwnerTable | CellKind::OwnerRowId | CellKind::OwnerColumn
                | CellKind::AuthorId | CellKind::BufferLen
        )
    }

    /// A key that is named with its list.
    pub open spec fn of_list_spec(self) -> bool {
        matches!(self, CellKind::Head | CellKind::Tail | CellKind::Parent)
    }

    #[verifier::when_used_as_spec(of_list_spec)]
    pub fn of_list(self) -> (b: bool)
        ensures
            b == self.of_list_spec(),
    {
        matches!(self, CellKind::Head | CellKind::Tail | CellKind::Parent)
    }

    /// An endpoint that an edit reads.
    pub open spec fn of_edit_spec(self) -> bool {
        matches!(self, CellKind::EditHead | CellKind::EditTail)
    }

    #[verifier::when_used_as_spec(of_edit_spec)]
    pub fn of_edit(self) -> (b: bool)
        ensures
            b == self.of_edit_spec(),
    {
        matches!(self, CellKind::EditHead | CellKind::EditTail)
    }
}

impl Cell {
    /// What the value is called.
    pub open spec fn label(self) -> Seq<Word> {
        if self.kind.of_piece() {
            seq![
                Word::Lit("_piecetext_pieces["), Word::Num(self.id), Word::Lit("]."),
                Word::Lit(self.kind.name()),
            ]
        } else if self.kind.of_buffer() {
            seq![
                Word::Lit("_piecetext_buffers."), Word::Lit(self.kind.name()), Word::Lit(" row "),
                Word::Num(self.id),
            ]
        } else if self.kind.of_list() {
            seq![
                Word::Lit(self.kind.name()), Word::Lit("("), Word::Num(self.id), Word::Lit(")"),
            ]
        } else {
            seq![Word::Lit(self.kind.name())]
        }
    }

    fn label_words(self) -> (v: Vec<Word>)
        ensures
            v@ =~= self.label(),
    {
        if self.kind.of_piece() {
            vec![
                Word::Lit("_piecetext_pieces["), Word::Num(self.id), Word::Lit("]."),
                Word::Lit(self.kind.name()),
            ]
        } else if self.kind.of_buffer() {
            vec![
                Word::Lit("_piecetext_buffers."), Word::Lit(self.kind.name()), Word::Lit(" row "),
                Word::Num(self.id),
            ]
        } else if self.kind.of_list() {
            vec![
                Word::Lit(self.kind.name()), Word::Lit("("), Word::Num(self.id), Word::Lit(")"),
            ]
        } else {
            vec![Word::Lit(self.kind.name())]
        }
    }

    /// What the value is called where a read of it went wrong.
    pub open spec fn read_label(self) -> Seq<Word> {
        if self.kind.of_buffer() {
            seq![
                Word::Lit("_piecetext_buffers row "), Word::Num(self.id), Word::Lit(" column '"),
                Word::Lit(self.kind.name()), Word::Lit("'"),
            ]
        } else if self.kind.of_edit() {
            seq![Word::Lit(self.kind.name()), Word::Lit(" key")]
        } else {
            self.label()
        }
    }

    fn read_label_words(self) -> (v: Vec<Word>)
        ensures
            v@ =~= self.read_label(),
    {
        if self.kind.of_buffer() {
            vec![
                Word::Lit("_piecetext_buffers row "), Word::Num(self.id), Word::Lit(" column '"),
                Word::Lit(self.kind.name()), Word::Lit("'"),
            ]
        } else if self.kind.of_edit() {
            vec![Word::Lit(self.kind.name()), Word::Lit(" key")]
        } else {
            self.label_words()
        }
    }

    /// How a value that is not there is spoken of.
    pub open spec fn absence(self) -> Seq<Word> {
        if self.kind.of_edit() || self.kind == CellKind::Parent {
            seq![Word::Lit(" is missing")]
        } else {
            seq![Word::Lit(" is absent")]
        }
    }

    fn absence_words(self) -> (v: Vec<Word>)
        ensures
            v@ =~= self.absence(),
    {
        if self.kind.of_edit() || self.kind == CellKind::Parent {
            vec![Word::Lit(" is missing")]
        } else {
            vec![Word::Lit(" is absent")]
        }
    }

    /// How a value of the wrong length is spoken of.
    pub open spec fn length(self, found: usize) -> Seq<Word> {
        if self.kind.of_list() {
            seq![Word::Lit(" has invalid length "), Word::Count(found), Word::Lit(", expected 8")]
        } else {
            seq![Word::Lit(" key has "), Word::Count(found), Word::Lit(" bytes, expected 8")]
        }
    }

    fn length_words(self, found: usize) -> (v: Vec<Word>)
        ensures
            v@ =~= self.length(found),
    {
        if self.kind.of_list() {
            vec![Word::Lit(" has invalid length "), Word::Count(found), Word::Lit(", expected 8")]
        } else {
            vec![Word::Lit(" key has "), Word::Count(found), Word::Lit(" bytes, expected 8")]
        }
    }

    /// What a number that is no 32-bit length is called.
    pub open spec fn number(self) -> Seq<Word> {
        if self.kind.of_buffer() {
            seq![
                Word::Lit("_piecetext_buffers row "), Word::Num(self.id), Word::Lit("."),
                Word::Lit(self.kind.name()), Word::Lit(" "),
            ]
        } else {
            self.label().push(Word::Lit(" value "))
        }
    }

    fn number_words(self) -> (v: Vec<Word>)
        ensures
            v@ =~= self.number(),
    {
        if self.kind.of_buffer() {
            vec![
                Word::Lit("_piecetext_buffers row "), Word::Num(self.id), Word::Lit("."),
                Word::Lit(self.kind.name()), Word::Lit(" "),
            ]
        } else {
            let mut v = self.label_words();
            v.push(Word::Lit(" value "));
            v
        }
    }
}

/// Words, and then others.
fn joined(words: Vec<Word>, more: Vec<Word>) -> (v: Vec<Word>)
    ensures
        v@ =~= words@ + more@,
{
    let mut v = words;
    let mut rest = more;
    v.append(&mut rest);
    v
}

/// Why what was read from the tree cannot be used.
#[derive(Clone, Copy, Debug, PartialEq, Eq, Structural)]
pub enum StorageFault {
    RowIdNotPositive { row_id: i64 },
    ResultCount { cell: Cell, found: usize },
    Absent { cell: Cell },
    WrongKey { cell: Cell },
    Undecodable { cell: Cell },
    NotInteger { cell: Cell },
    NotText { cell: Cell },
    OutsideU32 { cell: Cell, value: i64 },
    BadLength { cell: Cell, found: usize },
    ZeroLength { row_id: i64 },
    BadTombstone { row_id: i64, value: i64 },
    RangeOverflow { row_id: i64 },
    Unaligned { row_id: i64, start_byte: u32, len_bytes: u32 },
    IndexTable,
    IndexColumn,
    IndexValue { expected: i64 },
    IndexRowValue { row_id: i64 },
    IndexRowNotPositive { row_id: i64 },
    NotIndexKey,
    MalformedIndexKey,
    PieceIndexNotPositive { row_id: i64, list_number: i64, buffer_id: i64 },
    PieceIndexDeleteNotPositive { row_id: i64, list_number: i64, buffer_id: i64 },
    BufferIndexNotPositive { row_id: i64, owner_row_id: i64 },
    BufferIndexDeleteNotPositive { row_id: i64, owner_row_id: i64 },
}

impl StorageFault {
    /// What the fault's message is made of.
    pub open spec fn words(self) -> Seq<Word> {
        match self {
            StorageFault::RowIdNotPositive { row_id } => seq![
                Word::Lit("_piecetext_pieces row_id must be positive, got "),
                Word::Num(row_id),
            ],
            StorageFault::ResultCount { cell, found } => cell.read_label() + seq![
                Word::Lit(" read returned "), Word::Count(found), Word::Lit(" results, expected 1"),
            ],
            StorageFault::Absent { cell } => cell.read_label() + cell.absence(),
            StorageFault::WrongKey { cell } => cell.read_label() + seq![
                Word::Lit(" read returned wrong key"),
            ],
            StorageFault::Undecodable { cell } => seq![Word::Lit("failed to decode ")] + cell.label(),
            StorageFault::NotInteger { cell } => cell.label() + seq![Word::Lit(" is not an integer")],
            StorageFault::NotText { cell } => cell.label() + seq![Word::Lit(" is not a string")],
            StorageFault::OutsideU32 { cell, value } => cell.number() + seq![
                Word::Num(value), Word::Lit(" is outside u32 range"),
            ],
            StorageFault::BadLength { cell, found } => cell.label() + cell.length(found),
            StorageFault::ZeroLength { row_id } => seq![
                Word::Lit("_piecetext_pieces row "), Word::Num(row_id),
                Word::Lit(" has zero len_bytes"),
            ],
            StorageFault::BadTombstone { row_id, value } => seq![
                Word::Lit("_piecetext_pieces row "), Word::Num(row_id),
                Word::Lit(" has invalid tombstone value "), Word::Num(value),
            ],
            StorageFault::RangeOverflow { row_id } => seq![
                Word::Lit("_piecetext_pieces row "), Word::Num(row_id),
                Word::Lit(" range overflows"),
            ],
            StorageFault::Unaligned { row_id, start_byte, len_bytes } => seq![
                Word::Lit("_piecetext_pieces row "), Word::Num(row_id),
                Word::Lit(": _piecetext_pieces coord is not UTF-32 aligned (start_byte="),
                Word::Num(start_byte as i64), Word::Lit(", len_bytes="),
                Word::Num(len_bytes as i64), Word::Lit("); both must be multiples of 4"),
            ],
            StorageFault::IndexTable => seq![
                Word::Lit("buffer_id range returned index for another table, expected _piecetext_pieces"),
            ],
            StorageFault::IndexColumn => seq![
                Word::Lit("buffer_id range returned index for another column, expected buffer_id"),
            ],
            StorageFault::IndexValue { expected } => seq![
                Word::Lit("buffer_id range returned another index value, expected "),
                Word::Num(expected),
            ],
            StorageFault::IndexRowValue { row_id } => seq![
                Word::Lit("buffer_id index entry for row "), Word::Num(row_id),
                Word::Lit(" has wrong stored row_id value"),
            ],
            StorageFault::IndexRowNotPositive { row_id } => seq![
                Word::Lit("buffer_id index entry row_id must be positive, got "),
                Word::Num(row_id),
            ],
            StorageFault::NotIndexKey => seq![
                Word::Lit("buffer_id range returned non-index key"),
            ],
            StorageFault::MalformedIndexKey => seq![
                Word::Lit("failed to parse buffer_id index key"),
            ],
            StorageFault::PieceIndexNotPositive { row_id, list_number, buffer_id } => seq![
                Word::Lit("_piecetext_pieces index puts require positive row_id/list_number/buffer_id, got row_id="),
                Word::Num(row_id), Word::Lit(", list_number="), Word::Num(list_number),
                Word::Lit(", buffer_id="), Word::Num(buffer_id),
            ],
            StorageFault::PieceIndexDeleteNotPositive { row_id, list_number, buffer_id } => seq![
                Word::Lit("_piecetext_pieces index deletes require positive row_id/list_number/buffer_id, got row_id="),
                Word::Num(row_id), Word::Lit(", list_number="), Word::Num(list_number),
                Word::Lit(", buffer_id="), Word::Num(buffer_id),
            ],
            StorageFault::BufferIndexNotPositive { row_id, owner_row_id } => seq![
                Word::Lit("_piecetext_buffers index puts require positive row_id and owner_row_id, got row_id="),
                Word::Num(row_id), Word::Lit(", owner_row_id="), Word::Num(owner_row_id),
            ],
            StorageFault::BufferIndexDeleteNotPositive { row_id, owner_row_id } => seq![
                Word::Lit("_piecetext_buffers index deletes require positive row_id and owner_row_id, got row_id="),
                Word::Num(row_id), Word::Lit(", owner_row_id="), Word::Num(owner_row_id),
            ],
        }
    }

    pub fn to_words(&self) -> (v: Vec<Word>)
        ensures
            v@ =~= self.words(),
    {
        match *self {
            StorageFault::RowIdNotPositive { row_id } => vec![
                Word::Lit("_piecetext_pieces row_id must be positive, got "),
                Word::Num(row_id),
            ],
            StorageFault::ResultCount { cell, found } => joined(
                cell.read_label_words(),
                vec![
                    Word::Lit(" read returned "), Word::Count(found), Word::Lit(" results, expected 1"),
                ],
            ),
            StorageFault::Absent { cell } => joined(cell.read_label_words(), cell.absence_words()),
            StorageFault::WrongKey { cell } => joined(
                cell.read_label_words(),
                vec![Word::Lit(" read returned wrong key")],
            ),
            StorageFault::Undecodable { cell } => joined(
                vec![Word::Lit("failed to decode ")],
                cell.label_words(),
            ),
            StorageFault::NotInteger { cell } => joined(
                cell.label_words(),
                vec![Word::Lit(" is not an integer")],
            ),
            StorageFault::NotText { cell } => joined(
                cell.label_words(),
                vec![Word::Lit(" is not a string")],
            ),
            StorageFault::OutsideU32 { cell, value } => joined(
                cell.number_words(),
                vec![Word::Num(value), Word::Lit(" is outside u32 range")],
            ),
            StorageFault::BadLength { cell, found } => joined(
                cell.label_words(),
                cell.length_words(found),
            ),
            StorageFault::ZeroLength { row_id } => vec![
                Word::Lit("_piecetext_pieces row "), Word::Num(row_id),
                Word::Lit(" has zero len_bytes"),
            ],
            StorageFault::BadTombstone { row_id, value } => vec![
                Word::Lit("_piecetext_pieces row "), Word::Num(row_id),
                Word::Lit(" has invalid tombstone value "), Word::Num(value),
            ],
            StorageFault::RangeOverflow { row_id } => vec![
                Word::Lit("_piecetext_pieces row "), Word::Num(row_id),
                Word::Lit(" range overflows"),
            ],
            StorageFault::Unaligned { row_id, start_byte, len_bytes } => vec![
                Word::Lit("_piecetext_pieces row "), Word::Num(row_id),
                Word::Lit(": _piecetext_pieces coord is not UTF-32 aligned (start_byte="),
                Word::Num(start_byte as i64), Word::Lit(", len_bytes="),
                Word::Num(len_bytes as i64), Word::Lit("); both must be multiples of 4"),
            ],
            StorageFault::IndexTable => vec![
                Word::Lit("buffer_id range returned index for another table, expected _piecetext_pieces"),
            ],
            StorageFault::IndexColumn => vec![
                Word::Lit("buffer_id range returned index for another column, expected buffer_id"),
            ],
            StorageFault::IndexValue { expected } => vec![
                Word::Lit("buffer_id range returned another index value, expected "),
                Word::Num(expected),
            ],
            StorageFault::IndexRowValue { row_id } => vec![
                Word::Lit("buffer_id index entry for row "), Word::Num(row_id),
                Word::Lit(" has wrong stored row_id value"),
            ],
            StorageFault::IndexRowNotPositive { row_id } => vec![
                Word::Lit("buffer_id index entry row_id must be positive, got "),
                Word::Num(row_id),
            ],
            StorageFault::NotIndexKey => vec![
                Word::Lit("buffer_id range returned non-index key"),
            ],
            StorageFault::MalformedIndexKey => vec![
                Word::Lit("failed to parse buffer_id index key"),
            ],
            StorageFault::PieceIndexNotPositive { row_id, list_number, buffer_id } => vec![
                Word::Lit("_piecetext_pieces index puts require positive row_id/list_number/buffer_id, got row_id="),
                Word::Num(row_id), Word::Lit(", list_number="), Word::Num(list_number),
                Word::Lit(", buffer_id="), Word::Num(buffer_id),
            ],
            StorageFault::PieceIndexDeleteNotPositive { row_id, list_number, buffer_id } => vec![
                Word::Lit("_piecetext_pieces index deletes require positive row_id/list_number/buffer_id, got row_id="),
                Word::Num(row_id), Word::Lit(", list_number="), Word::Num(list_number),
                Word::Lit(", buffer_id="), Word::Num(buffer_id),
            ],
            StorageFault::BufferIndexNotPositive { row_id, owner_row_id } => vec![
                Word::Lit("_piecetext_buffers index puts require positive row_id and owner_row_id, got row_id="),
                Word::Num(row_id), Word::Lit(", owner_row_id="), Word::Num(owner_row_id),
            ],
            StorageFault::BufferIndexDeleteNotPositive { row_id, owner_row_id } => vec![
                Word::Lit("_piecetext_buffers index deletes require positive row_id and owner_row_id, got row_id="),
                Word::Num(row_id), Word::Lit(", owner_row_id="), Word::Num(owner_row_id),
            ],
        }
    }
}

/// The kind of a change.
#[derive(Clone, Copy, Debug, PartialEq, Eq, Structural)]
pub enum OpType {
    Update,
    RefreshKeys,
    RemoveUser,
    PieceTextEdit,
    PieceTextCleanupPieces,
    PieceTextCleanupBuffers,
    Other,
}

impl OpType {
    pub open spec fn name_spec(self) -> &'static str {
        match self {
            OpType::Update => "Update",
            OpType::RefreshKeys => "RefreshKeys",
            OpType::RemoveUser => "RemoveUser",
            OpType::PieceTextEdit => "PieceTextEdit",
            OpType::PieceTextCleanupPieces => "PieceTextCleanupPieces",
            OpType::PieceTextCleanupBuffers => "PieceTextCleanupBuffers",
            OpType::Other => "another operation",
        }
    }

    #[verifier::when_used_as_spec(name_spec)]
    pub fn name(self) -> (s: &'static str)
        ensures
            s == self.name_spec(),
    {
        match self {
            OpType::Update => "Update",
            OpType::RefreshKeys => "RefreshKeys",
            OpType::RemoveUser => "RemoveUser",
            OpType::PieceTextEdit => "PieceTextEdit",
            OpType::PieceTextCleanupPieces => "PieceTextCleanupPieces",
            OpType::PieceTextCleanupBuffers => "PieceTextCleanupBuffers",
            OpType::Other => "another operation",
        }
    }
}

/// The operation that an error is reported by.
#[derive(Clone, Copy, Debug, PartialEq, Eq, Structural)]
pub enum OpName {
    Update,
    RefreshKeys,
    RemoveUser,
    PieceTextEdit,
    PieceTextCleanupPieces,
}

impl OpName {
    pub open spec fn name_spec(self) -> &'static str {
        match self {
            OpName::Update => "update",
            OpName::RefreshKeys => "refresh_keys",
            OpName::RemoveUser => "remove_user",
            OpName::PieceTextEdit => "piece_text_edit",
            OpName::PieceTextCleanupPieces => "piece_text_cleanup_pieces",
        }
    }

    #[verifier::when_used_as_spec(name_spec)]
    pub fn name(self) -> (s: &'static str)
        ensures
            s == self.name_spec(),
    {
        match self {
            OpName::Update => "update",
            OpName::RefreshKeys => "refresh_keys",
            OpName::RemoveUser => "remove_user",
            OpName::PieceTextEdit => "piece_text_edit",
            OpName::PieceTextCleanupPieces => "piece_text_cleanup_pieces",
        }
    }
}

/// The form of an envelope.
#[derive(Clone, Copy, Debug, PartialEq, Eq, Structural)]
pub enum EnvelopeKind {
    Edit,
    CleanupPieces,
    CleanupBuffers,
}

impl EnvelopeKind {
    pub open spec fn name_spec(self) -> &'static str {
        match self {
            EnvelopeKind::Edit => "PieceTextEditEnvelopeV1",
            EnvelopeKind::CleanupPieces => "PieceTextCleanupPiecesEnvelopeV1",
            EnvelopeKind::CleanupBuffers => "PieceTextCleanupBuffersEnvelopeV1",
        }
    }

    #[verifier::when_used_as_spec(name_spec)]
    pub fn name(self) -> (s: &'static str)
        ensures
            s == self.name_spec(),
    {
        match self {
            EnvelopeKind::Edit => "PieceTextEditEnvelopeV1",
            EnvelopeKind::CleanupPieces => "PieceTextCleanupPiecesEnvelopeV1",
            EnvelopeKind::CleanupBuffers => "PieceTextCleanupBuffersEnvelopeV1",
        }
    }
}

/// What the key of a changelog entry is for.
#[derive(Clone, Copy, Debug, PartialEq, Eq, Structural)]
pub enum EntryKeyKind {
    Edit,
    CleanupPieces,
    CleanupBuffers,
}

impl EntryKeyKind {
    pub open spec fn name_spec(self) -> &'static str {
        match self {
            EntryKeyKind::Edit => "piece-text entry key",
            EntryKeyKind::CleanupPieces => "piece-text piece-cleanup entry key",
            EntryKeyKind::CleanupBuffers => "piece-text buffer-cleanup entry key",
        }
    }

    #[verifier::when_used_as_spec(name_spec)]
    pub fn name(self) -> (s: &'static str)
        ensures
            s == self.name_spec(),
    {
        match self {
            EntryKeyKind::Edit => "piece-text entry key",
            EntryKeyKind::CleanupPieces => "piece-text piece-cleanup entry key",
            EntryKeyKind::CleanupBuffers => "piece-text buffer-cleanup entry key",
        }
    }

    /// The tag of such keys.
    pub open spec fn tag_spec(self) -> &'static str {
        match self {
            EntryKeyKind::Edit => "PT",
            EntryKeyKind::CleanupPieces => "PTCP",
            EntryKeyKind::CleanupBuffers => "PTCB",
        }
    }

    /// The tag of such keys.
    #[verifier::when_used_as_spec(tag_spec)]
    pub fn tag(self) -> (s: &'static str)
        ensures
            s == self.tag_spec(),
    {
        match self {
            EntryKeyKind::Edit => "PT",
            EntryKeyKind::CleanupPieces => "PTCP",
            EntryKeyKind::CleanupBuffers => "PTCB",
        }
    }
}

/// Why the key of a changelog entry does not fit its envelope.
#[derive(Debug, PartialEq, Eq)]
pub enum KeyFault {
    /// A key of the kind expected, but of another envelope.
    Mismatch(EntryKeyKind),
    /// A key of another kind. The message does not show it.
    WrongTag { kind: EntryKeyKind, found: StorageKey },
    /// Bytes that are no key, and what the parser of keys said of them.
    Unparsable { kind: EntryKeyKind, reason: String },
}

pub enum KeyFaultView {
    Mismatch(EntryKeyKind),
    WrongTag { kind: EntryKeyKind, found: KeyView },
    Unparsable { kind: EntryKeyKind, reason: Seq<char> },
}

impl View for KeyFault {
    type V = KeyFaultView;

    open spec fn view(&self) -> KeyFaultView {
        match *self {
            KeyFault::Mismatch(kind) => KeyFaultView::Mismatch(kind),
            KeyFault::WrongTag { kind, found } => KeyFaultView::WrongTag { kind, found: found@ },
            KeyFault::Unparsable { kind, reason } => KeyFaultView::Unparsable { kind, reason: reason@ },
        }
    }
}

impl KeyFault {
    /// What the fault's message is made of.
    pub open spec fn words(self) -> Seq<Word> {
        match self {
            KeyFault::Mismatch(kind) => seq![
                Word::Lit(kind.name()), Word::Lit(" does not match envelope address/op_id"),
            ],
            KeyFault::WrongTag { kind, .. } => seq![
                Word::Lit(kind.name()), Word::Lit(" must use "), Word::Lit(kind.tag()),
                Word::Lit(" tag, got another key"),
            ],
            KeyFault::Unparsable { kind, reason } => seq![
                Word::Lit("failed to parse "), Word::Lit(kind.name()), Word::Lit(": "),
                Word::Name(reason),
            ],
        }
    }

    pub fn to_words(&self) -> (v: Vec<Word>)
        ensures
            v@ =~= self.words(),
    {
        match self {
            KeyFault::Mismatch(kind) => vec![
                Word::Lit(kind.name()), Word::Lit(" does not match envelope address/op_id"),
            ],
            KeyFault::WrongTag { kind, .. } => vec![
                Word::Lit(kind.name()), Word::Lit(" must use "), Word::Lit(kind.tag()),
                Word::Lit(" tag, got another key"),
            ],
            KeyFault::Unparsable { kind, reason } => vec![
                Word::Lit("failed to parse "), Word::Lit(kind.name()), Word::Lit(": "),
                Word::Name(reason.clone()),
            ],
        }
    }
}

/// Why bytes or values are not an envelope.
#[derive(Clone, Debug, PartialEq, Eq)]
pub enum EnvelopeFault {
    Version { kind: EnvelopeKind, version: u8 },
    TooLong { len: usize },
    Unserializable(EnvelopeKind),
    Trailing { kind: EnvelopeKind, count: usize },
    NotCanonical(EnvelopeKind),
    ListNumber,
    OpId(EnvelopeKind),
    NoRuns,
    TooManyRuns { count: usize },
    EmptyRun,
    RemovalNotPositive { row_id: i64 },
    RemovalRepeated { row_id: i64 },
    RunOrder,
    TooManyRemovals { count: usize },
    NoBuffers,
    TooManyBuffers { count: usize },
    BufferNotPositive { buffer_id: i64 },
    BufferOrder,
    WrongOp { expected: OpType, found: OpType },
    TreePath(OpType),
    EntryCount { op_type: OpType, count: usize },
    BodyCount { bodies: usize, inserts: usize },
    BodyTotalOverflow,
    BodyTotal { total: usize },
    BodyTooLong { index: usize, len: usize },
    BodyLength { index: usize, len: usize, claimed: u32 },
    BodyHash { index: usize, found: [u8; 32], claimed: [u8; 32] },
}

impl EnvelopeFault {
    /// What the fault's message is made of.
    pub open spec fn words(self) -> Seq<Word> {
        match self {
            EnvelopeFault::Version { kind, version } => seq![
                Word::Lit("unsupported "), Word::Lit(kind.name()), Word::Lit(" version "),
                Word::Num(version as i64),
            ],
            EnvelopeFault::TooLong { len } => seq![
                Word::Lit("PieceTextEditEnvelopeV1 is "), Word::Count(len),
                Word::Lit(" bytes, exceeding MAX_PIECETEXT_ENVELOPE_BYTES 65536"),
            ],
            EnvelopeFault::Unserializable(inner) => seq![
                Word::Lit("failed to serialize "), Word::Lit(inner.name()),
            ],
            EnvelopeFault::Trailing { kind, count } => seq![
                Word::Lit(kind.name()), Word::Lit(" has "), Word::Count(count),
                Word::Lit(" trailing bytes"),
            ],
            EnvelopeFault::NotCanonical(inner) => seq![
                Word::Lit(inner.name()), Word::Lit(" bytes are not canonical"),
            ],
            EnvelopeFault::ListNumber => seq![
                Word::Lit("PieceTextCleanupPiecesEnvelopeV1.list_number must be greater than 0"),
            ],
            EnvelopeFault::OpId(inner) => seq![
                Word::Lit(inner.name()), Word::Lit(".op_id must be greater than 0"),
            ],
            EnvelopeFault::NoRuns => seq![
                Word::Lit("PieceTextCleanupPiecesEnvelopeV1 must have at least one run"),
            ],
            EnvelopeFault::TooManyRuns { count } => seq![
                Word::Lit("PieceTextCleanupPiecesEnvelopeV1 has "), Word::Count(count),
                Word::Lit(" runs, exceeding cap 64"),
            ],
            EnvelopeFault::EmptyRun => seq![
                Word::Lit("PieceTextCleanupRunV1 must have at least one removal"),
            ],
            EnvelopeFault::RemovalNotPositive { row_id } => seq![
                Word::Lit("PieceTextCleanupRunV1 removal row ids must be positive, got "),
                Word::Num(row_id),
            ],
            EnvelopeFault::RemovalRepeated { row_id } => seq![
                Word::Lit("PieceTextCleanupPiecesEnvelopeV1 removal row id "),
                Word::Num(row_id), Word::Lit(" appears more than once"),
            ],
            EnvelopeFault::RunOrder => seq![
                Word::Lit("PieceTextCleanupPiecesEnvelopeV1 runs must be in ascending order by first removed row id"),
            ],
            EnvelopeFault::TooManyRemovals { count } => seq![
                Word::Lit("PieceTextCleanupPiecesEnvelopeV1 removes "), Word::Count(count),
                Word::Lit(" rows, exceeding cap 256"),
            ],
            EnvelopeFault::NoBuffers => seq![
                Word::Lit("PieceTextCleanupBuffersEnvelopeV1 must remove at least one buffer"),
            ],
            EnvelopeFault::TooManyBuffers { count } => seq![
                Word::Lit("PieceTextCleanupBuffersEnvelopeV1.buffer_removals has "),
                Word::Count(count), Word::Lit(" entries, exceeding cap 64"),
            ],
            EnvelopeFault::BufferNotPositive { buffer_id } => seq![
                Word::Lit("PieceTextCleanupBuffersEnvelopeV1.buffer_removals row ids must be positive, got "),
                Word::Num(buffer_id),
            ],
            EnvelopeFault::BufferOrder => seq![
                Word::Lit("PieceTextCleanupBuffersEnvelopeV1.buffer_removals must be strictly ascending"),
            ],
            EnvelopeFault::WrongOp { expected, found } => seq![
                Word::Lit("expected OpType::"), Word::Lit(expected.name()),
                Word::Lit(", got "), Word::Lit(found.name()),
            ],
            EnvelopeFault::TreePath(inner) => seq![
                Word::Lit(inner.name()), Word::Lit(" tree_path must be /"),
            ],
            EnvelopeFault::EntryCount { op_type, count } => seq![
                Word::Lit(op_type.name()),
                Word::Lit(" must carry exactly one manifest entry, got "),
                Word::Count(count),
            ],
            EnvelopeFault::BodyCount { bodies, inserts } => seq![
                Word::Lit("PieceTextEdit inserted body count "), Word::Count(bodies),
                Word::Lit(" does not match manifest insert count "), Word::Count(inserts),
            ],
            EnvelopeFault::BodyTotalOverflow => seq![
                Word::Lit("PieceTextEdit inserted body aggregate length overflowed"),
            ],
            EnvelopeFault::BodyTotal { total } => seq![
                Word::Lit("PieceTextEdit inserted bodies total "), Word::Count(total),
                Word::Lit(" bytes exceeds MAX_PIECETEXT_BODY_BYTES 8388608"),
            ],
            EnvelopeFault::BodyTooLong { index, len } => seq![
                Word::Lit("PieceTextEdit inserted body "), Word::Count(index),
                Word::Lit(" has "), Word::Count(len),
                Word::Lit(" bytes, exceeding MAX_PIECETEXT_ENCRYPTED_BODY_BYTES 262144"),
            ],
            EnvelopeFault::BodyLength { index, len, claimed } => seq![
                Word::Lit("PieceTextEdit inserted body "), Word::Count(index),
                Word::Lit(" has "), Word::Count(len),
                Word::Lit(" bytes, but manifest claims "), Word::Num(claimed as i64),
            ],
            EnvelopeFault::BodyHash { index, found, claimed } => seq![
                Word::Lit("PieceTextEdit inserted body "), Word::Count(index),
                Word::Lit(" value_hash "), Word::Digest(found),
                Word::Lit(" does not match manifest "), Word::Digest(claimed),
            ],
        }
    }

    pub fn to_words(&self) -> (v: Vec<Word>)
        ensures
            v@ =~= self.words(),
    {
        match self {
            EnvelopeFault::Version { kind, version } => vec![
                Word::Lit("unsupported "), Word::Lit(kind.name()), Word::Lit(" version "),
                Word::Num(*version as i64),
            ],
            EnvelopeFault::TooLong { len } => vec![
                Word::Lit("PieceTextEditEnvelopeV1 is "), Word::Count(*len),
                Word::Lit(" bytes, exceeding MAX_PIECETEXT_ENVELOPE_BYTES 65536"),
            ],
            EnvelopeFault::Unserializable(inner) => vec![
                Word::Lit("failed to serialize "), Word::Lit(inner.name()),
            ],
            EnvelopeFault::Trailing { kind, count } => vec![
                Word::Lit(kind.name()), Word::Lit(" has "), Word::Count(*count),
                Word::Lit(" trailing bytes"),
            ],
            EnvelopeFault::NotCanonical(inner) => vec![
                Word::Lit(inner.name()), Word::Lit(" bytes are not canonical"),
            ],
            EnvelopeFault::ListNumber => vec![
                Word::Lit("PieceTextCleanupPiecesEnvelopeV1.list_number must be greater than 0"),
            ],
            EnvelopeFault::OpId(inner) => vec![
                Word::Lit(inner.name()), Word::Lit(".op_id must be greater than 0"),
            ],
            EnvelopeFault::NoRuns => vec![
                Word::Lit("PieceTextCleanupPiecesEnvelopeV1 must have at least one run"),
            ],
            EnvelopeFault::TooManyRuns { count } => vec![
                Word::Lit("PieceTextCleanupPiecesEnvelopeV1 has "), Word::Count(*count),
                Word::Lit(" runs, exceeding cap 64"),
            ],
            EnvelopeFault::EmptyRun => vec![
                Word::Lit("PieceTextCleanupRunV1 must have at least one removal"),
            ],
            EnvelopeFault::RemovalNotPositive { row_id } => vec![
                Word::Lit("PieceTextCleanupRunV1 removal row ids must be positive, got "),
                Word::Num(*row_id),
            ],
            EnvelopeFault::RemovalRepeated { row_id } => vec![
                Word::Lit("PieceTextCleanupPiecesEnvelopeV1 removal row id "),
                Word::Num(*row_id), Word::Lit(" appears more than once"),
            ],
            EnvelopeFault::RunOrder => vec![
                Word::Lit("PieceTextCleanupPiecesEnvelopeV1 runs must be in ascending order by first removed row id"),
            ],
            EnvelopeFault::TooManyRemovals { count } => vec![
                Word::Lit("PieceTextCleanupPiecesEnvelopeV1 removes "), Word::Count(*count),
                Word::Lit(" rows, exceeding cap 256"),
            ],
            EnvelopeFault::NoBuffers => vec![
                Word::Lit("PieceTextCleanupBuffersEnvelopeV1 must remove at least one buffer"),
            ],
            EnvelopeFault::TooManyBuffers { count } => vec![
                Word::Lit("PieceTextCleanupBuffersEnvelopeV1.buffer_removals has "),
                Word::Count(*count), Word::Lit(" entries, exceeding cap 64"),
            ],
            EnvelopeFault::BufferNotPositive { buffer_id } => vec![
                Word::Lit("PieceTextCleanupBuffersEnvelopeV1.buffer_removals row ids must be positive, got "),
                Word::Num(*buffer_id),
            ],
            EnvelopeFault::BufferOrder => vec![
                Word::Lit("PieceTextCleanupBuffersEnvelopeV1.buffer_removals must be strictly ascending"),
            ],
            EnvelopeFault::WrongOp { expected, found } => vec![
                Word::Lit("expected OpType::"), Word::Lit(expected.name()),
                Word::Lit(", got "), Word::Lit(found.name()),
            ],
            EnvelopeFault::TreePath(inner) => vec![
                Word::Lit(inner.name()), Word::Lit(" tree_path must be /"),
            ],
            EnvelopeFault::EntryCount { op_type, count } => vec![
                Word::Lit(op_type.name()),
                Word::Lit(" must carry exactly one manifest entry, got "),
                Word::Count(*count),
            ],
            EnvelopeFault::BodyCount { bodies, inserts } => vec![
                Word::Lit("PieceTextEdit inserted body count "), Word::Count(*bodies),
                Word::Lit(" does not match manifest insert count "), Word::Count(*inserts),
            ],
            EnvelopeFault::BodyTotalOverflow => vec![
                Word::Lit("PieceTextEdit inserted body aggregate length overflowed"),
            ],
            EnvelopeFault::BodyTotal { total } => vec![
                Word::Lit("PieceTextEdit inserted bodies total "), Word::Count(*total),
                Word::Lit(" bytes exceeds MAX_PIECETEXT_BODY_BYTES 8388608"),
            ],
            EnvelopeFault::BodyTooLong { index, len } => vec![
                Word::Lit("PieceTextEdit inserted body "), Word::Count(*index),
                Word::Lit(" has "), Word::Count(*len),
                Word::Lit(" bytes, exceeding MAX_PIECETEXT_ENCRYPTED_BODY_BYTES 262144"),
            ],
            EnvelopeFault::BodyLength { index, len, claimed } => vec![
                Word::Lit("PieceTextEdit inserted body "), Word::Count(*index),
                Word::Lit(" has "), Word::Count(*len),
                Word::Lit(" bytes, but manifest claims "), Word::Num(*claimed as i64),
            ],
            EnvelopeFault::BodyHash { index, found, claimed } => vec![
                Word::Lit("PieceTextEdit inserted body "), Word::Count(*index),
                Word::Lit(" value_hash "), Word::Digest(*found),
                Word::Lit(" does not match manifest "), Word::Digest(*claimed),
            ],
        }
    }
}

/// Why an operation is refused.
#[derive(Clone, Debug, PartialEq, Eq)]
pub enum OpFault {
    NotPieceText { table: String, column: String },
    BadListNumber { list_number: i64 },
    ParentCellAbsent { table: String, row_id: i64, column: String },
    ParentCellCount { table: String, row_id: i64, column: String, found: usize },
    ParentCellWrongKey { table: String, row_id: i64, column: String },
    ParentMismatch { list_number: i64, owner_table: String, owner_row_id: i64, owner_column: String, table: String, row_id: i64, column: String },
    BufferIdNotPositive { buffer_id: i64 },
    BufferLenRange { buffer_id: i64, len_bytes: u32 },
    BufferOwner { buffer_id: i64, owner_table: String, owner_row_id: i64, owner_column: String, table: String, row_id: i64, column: String },
    RowRangeOverflow { row_id: i64 },
    RowPastBuffer { row_id: i64, buffer_id: i64, end: u32, len_bytes: u32 },
    PlannedRow { row_id: i64, start_byte: u32, len_bytes: u32 },
    PlannedUpdate { row_id: i64, start_byte: u32, len_bytes: u32 },
    UnknownUpdate { row_id: i64 },
    StartChanged { row_id: i64 },
    /// The key that two writes are to. Its bytes are made outside the library, so
    /// the message does not show it.
    DuplicateWriteKey { key: StorageKey },
    ChangeIdRange { current_change_id: u64 },
    ChangeIdMismatch { op_id: i64, current_change_id: i64 },
    ListNumberMismatch { found: i64, expected: i64 },
    RemovedNext { row_id: i64, next_id: i64, expected: i64 },
    RemovedPrev { row_id: i64, prev_id: i64, expected: i64 },
    RunNotAtHead { row_id: i64, head_id: i64 },
    RunNotAtTail { row_id: i64, tail_id: i64 },
    SameSurvivors { survivor: i64 },
    SurvivorRemoved { survivor: i64 },
    SurvivorShared { survivor: i64 },
    RemovedOtherList { row_id: i64, found_list: i64, list_number: i64 },
    RemovedLive { row_id: i64 },
    RemovedBuffer { row_id: i64, buffer_id: i64 },
    RemovedUnaligned { row_id: i64, start_byte: u32, len_bytes: u32 },
    UnknownColumn { column: String },
    ListColumn { column: String },
    PieceTextColumn { column: String },
    RowAbsent { table: String, row_id: i64 },
    UnexpectedRetention,
    NoKeyHistory,
    NoUsers,
    NotUsersTable { table: String },
    ColumnNotAllowed { column: String },
    ValidToMismatch { valid_to: i64, sig_ref: u32 },
    RangeBackward { valid_from: i64, valid_to: i64 },
    AuthKeyAbsent { uid: u32 },
    AuthKeyMismatch { uid: u32 },
    DeletedAuthKeyAbsent { uid: u32 },
    DeletedAuthKeyMismatch { uid: u32 },
    RangeOverlap { valid_from: i64, valid_to: i64, prev_from: i64, prev_to: i64, uid: u32 },
    RangeGap { valid_from: i64, expected_from: i64, uid: u32 },
    FirstRotation { valid_from: i64, uid: u32 },
    FirstHistory { valid_from: i64, uid: u32 },
    ChangeIdZero,
    UserTable { table: String },
    DeletedRows { count: usize },
    MissingColumns { row_id: i64, missing: Vec<String> },
    RetentionColumns { missing: Vec<String> },
    RetentionNoColumns,
    RetentionCount { count: usize, columns: usize },
}

impl OpFault {
    /// What the fault's message is made of.
    pub open spec fn words(self) -> Seq<Word> {
        match self {
            OpFault::NotPieceText { table, column } => seq![
                Word::Lit("column '"), Word::Name(table), Word::Lit("."), Word::Name(column),
                Word::Lit("' is not declared as PieceText"),
            ],
            OpFault::BadListNumber { list_number } => seq![
                Word::Lit("parent PieceText cell has invalid list_number "),
                Word::Num(list_number),
            ],
            OpFault::ParentCellAbsent { table, row_id, column } => seq![
                Word::Lit("parent PieceText cell "), Word::Name(table), Word::Lit("/"),
                Word::Num(row_id), Word::Lit("/"), Word::Name(column), Word::Lit(" is absent"),
            ],
            OpFault::ParentCellCount { table, row_id, column, found } => seq![
                Word::Lit("parent PieceText cell "), Word::Name(table), Word::Lit("/"),
                Word::Num(row_id), Word::Lit("/"), Word::Name(column), Word::Lit(" read returned "),
                Word::Count(found), Word::Lit(" results, expected 1"),
            ],
            OpFault::ParentCellWrongKey { table, row_id, column } => seq![
                Word::Lit("parent PieceText cell "), Word::Name(table), Word::Lit("/"),
                Word::Num(row_id), Word::Lit("/"), Word::Name(column),
                Word::Lit(" read returned wrong key"),
            ],
            OpFault::ParentMismatch { list_number, owner_table, owner_row_id, owner_column, table, row_id, column } => seq![
                Word::Lit("piece_coords_parent_key("), Word::Num(list_number),
                Word::Lit(") points to ("), Word::Name(owner_table), Word::Lit(", "),
                Word::Num(owner_row_id), Word::Lit(", "), Word::Name(owner_column),
                Word::Lit(") but envelope addresses ("), Word::Name(table), Word::Lit(", "),
                Word::Num(row_id), Word::Lit(", "), Word::Name(column), Word::Lit(")"),
            ],
            OpFault::BufferIdNotPositive { buffer_id } => seq![
                Word::Lit("buffer_id must be positive, got "), Word::Num(buffer_id),
            ],
            OpFault::BufferLenRange { buffer_id, len_bytes } => seq![
                Word::Lit("_piecetext_buffers row "), Word::Num(buffer_id),
                Word::Lit(".len_bytes "), Word::Num(len_bytes as i64),
                Word::Lit(" is outside 1..=4194304"),
            ],
            OpFault::BufferOwner { buffer_id, owner_table, owner_row_id, owner_column, table, row_id, column } => seq![
                Word::Lit("buffer "), Word::Num(buffer_id), Word::Lit(" owner address ("),
                Word::Name(owner_table), Word::Lit(", "), Word::Num(owner_row_id),
                Word::Lit(", "), Word::Name(owner_column),
                Word::Lit(") does not match envelope ("), Word::Name(table), Word::Lit(", "),
                Word::Num(row_id), Word::Lit(", "), Word::Name(column), Word::Lit(")"),
            ],
            OpFault::RowRangeOverflow { row_id } => seq![
                Word::Lit("_piecetext_pieces row "), Word::Num(row_id),
                Word::Lit(" range overflows"),
            ],
            OpFault::RowPastBuffer { row_id, buffer_id, end, len_bytes } => seq![
                Word::Lit("_piecetext_pieces row "), Word::Num(row_id),
                Word::Lit(" range exceeds buffer "), Word::Num(buffer_id),
                Word::Lit(" len_bytes ("), Word::Num(end as i64), Word::Lit(" > "),
                Word::Num(len_bytes as i64), Word::Lit(")"),
            ],
            OpFault::PlannedRow { row_id, start_byte, len_bytes } => seq![
                Word::Lit("planned piece row "), Word::Num(row_id),
                Word::Lit(": _piecetext_pieces coord is not UTF-32 aligned (start_byte="),
                Word::Num(start_byte as i64), Word::Lit(", len_bytes="),
                Word::Num(len_bytes as i64), Word::Lit("); both must be multiples of 4"),
            ],
            OpFault::PlannedUpdate { row_id, start_byte, len_bytes } => seq![
                Word::Lit("planned update to piece row "), Word::Num(row_id),
                Word::Lit(": _piecetext_pieces coord is not UTF-32 aligned (start_byte="),
                Word::Num(start_byte as i64), Word::Lit(", len_bytes="),
                Word::Num(len_bytes as i64), Word::Lit("); both must be multiples of 4"),
            ],
            OpFault::UnknownUpdate { row_id } => seq![
                Word::Lit("update references unknown pre-existing piece row "),
                Word::Num(row_id),
            ],
            OpFault::StartChanged { row_id } => seq![
                Word::Lit("piece row "), Word::Num(row_id),
                Word::Lit(" buffer_id/start_byte changed"),
            ],
            OpFault::DuplicateWriteKey { .. } => seq![Word::Lit("duplicate write key")],
            OpFault::ChangeIdRange { current_change_id } => seq![
                Word::Lit("current_change_id "), Word::Wide(current_change_id),
                Word::Lit(" is outside i64 range"),
            ],
            OpFault::ChangeIdMismatch { op_id, current_change_id } => seq![
                Word::Lit("envelope op_id "), Word::Num(op_id),
                Word::Lit(" does not match current_change_id "),
                Word::Num(current_change_id),
            ],
            OpFault::ListNumberMismatch { found, expected } => seq![
                Word::Lit("parent PieceText cell list_number "), Word::Num(found),
                Word::Lit(" does not match envelope list_number "), Word::Num(expected),
            ],
            OpFault::RemovedNext { row_id, next_id, expected } => seq![
                Word::Lit("removed row "), Word::Num(row_id), Word::Lit(" next_id is "),
                Word::Num(next_id), Word::Lit(", expected next removed row "),
                Word::Num(expected),
            ],
            OpFault::RemovedPrev { row_id, prev_id, expected } => seq![
                Word::Lit("removed row "), Word::Num(row_id), Word::Lit(" prev_id is "),
                Word::Num(prev_id), Word::Lit(", expected previous removed row "),
                Word::Num(expected),
            ],
            OpFault::RunNotAtHead { row_id, head_id } => seq![
                Word::Lit("run starts at row "), Word::Num(row_id),
                Word::Lit(" (prev_id 0), but list head is "), Word::Num(head_id),
            ],
            OpFault::RunNotAtTail { row_id, tail_id } => seq![
                Word::Lit("run ends at row "), Word::Num(row_id),
                Word::Lit(" (next_id 0), but list tail is "), Word::Num(tail_id),
            ],
            OpFault::SameSurvivors { survivor } => seq![
                Word::Lit("derived prev and next survivor are both "), Word::Num(survivor),
            ],
            OpFault::SurvivorRemoved { survivor } => seq![
                Word::Lit("boundary survivor "), Word::Num(survivor),
                Word::Lit(" is also a removed row"),
            ],
            OpFault::SurvivorShared { survivor } => seq![
                Word::Lit("boundary survivor "), Word::Num(survivor),
                Word::Lit(" is used by more than one run"),
            ],
            OpFault::RemovedOtherList { row_id, found_list, list_number } => seq![
                Word::Lit("removed _piecetext_pieces row "), Word::Num(row_id),
                Word::Lit(" belongs to list "), Word::Num(found_list),
                Word::Lit(", expected "), Word::Num(list_number),
            ],
            OpFault::RemovedLive { row_id } => seq![
                Word::Lit("removed _piecetext_pieces row "), Word::Num(row_id),
                Word::Lit(" is not tombstoned"),
            ],
            OpFault::RemovedBuffer { row_id, buffer_id } => seq![
                Word::Lit("removed _piecetext_pieces row "), Word::Num(row_id),
                Word::Lit(" has invalid buffer_id "), Word::Num(buffer_id),
            ],
            OpFault::RemovedUnaligned { row_id, start_byte, len_bytes } => seq![
                Word::Lit("removed _piecetext_pieces row "), Word::Num(row_id),
                Word::Lit(": _piecetext_pieces coord is not UTF-32 aligned (start_byte="),
                Word::Num(start_byte as i64), Word::Lit(", len_bytes="),
                Word::Num(len_bytes as i64), Word::Lit("); both must be multiples of 4"),
            ],
            OpFault::UnknownColumn { column } => seq![
                Word::Lit("column '"), Word::Name(column),
                Word::Lit("' does not exist in schema"),
            ],
            OpFault::ListColumn { column } => seq![
                Word::Lit("column '"), Word::Name(column),
                Word::Lit("' is a List column and cannot be modified by UPDATE — use list operations instead"),
            ],
            OpFault::PieceTextColumn { column } => seq![
                Word::Lit("column '"), Word::Name(column),
                Word::Lit("' is a PieceText column and cannot be modified by UPDATE — use PieceTextEdit instead"),
            ],
            OpFault::RowAbsent { table, row_id } => seq![
                Word::Name(table), Word::Lit(" row_id="), Word::Num(row_id),
                Word::Lit(" does not exist; all planned old column reads were absent"),
            ],
            OpFault::UnexpectedRetention => seq![Word::Lit("unexpected _retention entries")],
            OpFault::NoKeyHistory => seq![Word::Lit("_key_history entries must not be empty")],
            OpFault::NoUsers => seq![Word::Lit("_users entries must not be empty")],
            OpFault::NotUsersTable { table } => seq![
                Word::Lit("must target _users table, got '"), Word::Name(table),
                Word::Lit("'"),
            ],
            OpFault::ColumnNotAllowed { column } => seq![
                Word::Lit("column '"), Word::Name(column),
                Word::Lit("' is not allowed (only [\"update_key\", \"auth_key\", \"status\"])"),
            ],
            OpFault::ValidToMismatch { valid_to, sig_ref } => seq![
                Word::Lit("_key_history.valid_to_change_id="), Word::Num(valid_to),
                Word::Lit(" does not match entry.sig_ref="), Word::Num(sig_ref as i64),
            ],
            OpFault::RangeBackward { valid_from, valid_to } => seq![
                Word::Lit("_key_history.valid_from_change_id="), Word::Num(valid_from),
                Word::Lit(" must be <= valid_to_change_id="), Word::Num(valid_to),
            ],
            OpFault::AuthKeyAbsent { uid } => seq![
                Word::Lit("_users.auth_key not found for uid="), Word::Num(uid as i64),
            ],
            OpFault::AuthKeyMismatch { uid } => seq![
                Word::Lit("_key_history.old_auth_key does not match current _users.auth_key for uid="),
                Word::Num(uid as i64),
            ],
            OpFault::DeletedAuthKeyAbsent { uid } => seq![
                Word::Lit("_users.auth_key not found for deleted uid="),
                Word::Num(uid as i64),
            ],
            OpFault::DeletedAuthKeyMismatch { uid } => seq![
                Word::Lit("_key_history.old_auth_key does not match current _users.auth_key for deleted uid="),
                Word::Num(uid as i64),
            ],
            OpFault::RangeOverlap { valid_from, valid_to, prev_from, prev_to, uid } => seq![
                Word::Lit("new _key_history range ["), Word::Num(valid_from),
                Word::Lit(", "), Word::Num(valid_to),
                Word::Lit("] overlaps existing range ["), Word::Num(prev_from),
                Word::Lit(", "), Word::Num(prev_to), Word::Lit("] for uid="),
                Word::Num(uid as i64),
            ],
            OpFault::RangeGap { valid_from, expected_from, uid } => seq![
                Word::Lit("_key_history.valid_from_change_id="), Word::Num(valid_from),
                Word::Lit(" must be "), Word::Num(expected_from),
                Word::Lit(" (previous valid_to + 1) for uid="), Word::Num(uid as i64),
            ],
            OpFault::FirstRotation { valid_from, uid } => seq![
                Word::Lit("_key_history.valid_from_change_id="), Word::Num(valid_from),
                Word::Lit(" must be 0 for the first rotation of uid="),
                Word::Num(uid as i64),
            ],
            OpFault::FirstHistory { valid_from, uid } => seq![
                Word::Lit("_key_history.valid_from_change_id="), Word::Num(valid_from),
                Word::Lit(" must be 0 for the first history entry of uid="),
                Word::Num(uid as i64),
            ],
            OpFault::ChangeIdZero => seq![
                Word::Lit("cannot derive valid_to_change_id from current_change_id=0"),
            ],
            OpFault::UserTable { table } => seq![
                Word::Lit("user columns target table '"), Word::Name(table),
                Word::Lit("', expected '_users'"),
            ],
            OpFault::DeletedRows { count } => seq![
                Word::Lit("expected exactly 1 deleted _users row, got "), Word::Count(count),
            ],
            OpFault::MissingColumns { row_id, missing } => seq![
                Word::Lit("row "), Word::Num(row_id), Word::Lit(" is missing columns "),
            ] + list_words(missing@) + seq![Word::Lit(" — deletes must cover all columns")],
            OpFault::RetentionColumns { missing } => seq![
                Word::Lit("_retention insert missing columns "),
            ] + list_words(missing@),
            OpFault::RetentionNoColumns => seq![Word::Lit("_retention has no schema columns")],
            OpFault::RetentionCount { count, columns } => seq![
                Word::Lit("_retention entry count "), Word::Count(count),
                Word::Lit(" is not a multiple of col_count="), Word::Count(columns),
            ],
        }
    }

    pub fn to_words(&self) -> (v: Vec<Word>)
        ensures
            v@ =~= self.words(),
    {
        match self {
            OpFault::NotPieceText { table, column } => vec![
                Word::Lit("column '"), Word::Name(table.clone()), Word::Lit("."),
                Word::Name(column.clone()), Word::Lit("' is not declared as PieceText"),
            ],
            OpFault::BadListNumber { list_number } => vec![
                Word::Lit("parent PieceText cell has invalid list_number "),
                Word::Num(*list_number),
            ],
            OpFault::ParentCellAbsent { table, row_id, column } => vec![
                Word::Lit("parent PieceText cell "), Word::Name(table.clone()), Word::Lit("/"),
                Word::Num(*row_id), Word::Lit("/"), Word::Name(column.clone()), Word::Lit(" is absent"),
            ],
            OpFault::ParentCellCount { table, row_id, column, found } => vec![
                Word::Lit("parent PieceText cell "), Word::Name(table.clone()), Word::Lit("/"),
                Word::Num(*row_id), Word::Lit("/"), Word::Name(column.clone()), Word::Lit(" read returned "),
                Word::Count(*found), Word::Lit(" results, expected 1"),
            ],
            OpFault::ParentCellWrongKey { table, row_id, column } => vec![
                Word::Lit("parent PieceText cell "), Word::Name(table.clone()), Word::Lit("/"),
                Word::Num(*row_id), Word::Lit("/"), Word::Name(column.clone()),
                Word::Lit(" read returned wrong key"),
            ],
            OpFault::ParentMismatch { list_number, owner_table, owner_row_id, owner_column, table, row_id, column } => vec![
                Word::Lit("piece_coords_parent_key("), Word::Num(*list_number),
                Word::Lit(") points to ("), Word::Name(owner_table.clone()), Word::Lit(", "),
                Word::Num(*owner_row_id), Word::Lit(", "), Word::Name(owner_column.clone()),
                Word::Lit(") but envelope addresses ("), Word::Name(table.clone()),
                Word::Lit(", "), Word::Num(*row_id), Word::Lit(", "),
                Word::Name(column.clone()), Word::Lit(")"),
            ],
            OpFault::BufferIdNotPositive { buffer_id } => vec![
                Word::Lit("buffer_id must be positive, got "), Word::Num(*buffer_id),
            ],
            OpFault::BufferLenRange { buffer_id, len_bytes } => vec![
                Word::Lit("_piecetext_buffers row "), Word::Num(*buffer_id),
                Word::Lit(".len_bytes "), Word::Num(*len_bytes as i64),
                Word::Lit(" is outside 1..=4194304"),
            ],
            OpFault::BufferOwner { buffer_id, owner_table, owner_row_id, owner_column, table, row_id, column } => vec![
                Word::Lit("buffer "), Word::Num(*buffer_id), Word::Lit(" owner address ("),
                Word::Name(owner_table.clone()), Word::Lit(", "), Word::Num(*owner_row_id),
                Word::Lit(", "), Word::Name(owner_column.clone()),
                Word::Lit(") does not match envelope ("), Word::Name(table.clone()),
                Word::Lit(", "), Word::Num(*row_id), Word::Lit(", "),
                Word::Name(column.clone()), Word::Lit(")"),
            ],
            OpFault::RowRangeOverflow { row_id } => vec![
                Word::Lit("_piecetext_pieces row "), Word::Num(*row_id),
                Word::Lit(" range overflows"),
            ],
            OpFault::RowPastBuffer { row_id, buffer_id, end, len_bytes } => vec![
                Word::Lit("_piecetext_pieces row "), Word::Num(*row_id),
                Word::Lit(" range exceeds buffer "), Word::Num(*buffer_id),
                Word::Lit(" len_bytes ("), Word::Num(*end as i64), Word::Lit(" > "),
                Word::Num(*len_bytes as i64), Word::Lit(")"),
            ],
            OpFault::PlannedRow { row_id, start_byte, len_bytes } => vec![
                Word::Lit("planned piece row "), Word::Num(*row_id),
                Word::Lit(": _piecetext_pieces coord is not UTF-32 aligned (start_byte="),
                Word::Num(*start_byte as i64), Word::Lit(", len_bytes="),
                Word::Num(*len_bytes as i64), Word::Lit("); both must be multiples of 4"),
            ],
            OpFault::PlannedUpdate { row_id, start_byte, len_bytes } => vec![
                Word::Lit("planned update to piece row "), Word::Num(*row_id),
                Word::Lit(": _piecetext_pieces coord is not UTF-32 aligned (start_byte="),
                Word::Num(*start_byte as i64), Word::Lit(", len_bytes="),
                Word::Num(*len_bytes as i64), Word::Lit("); both must be multiples of 4"),
            ],
            OpFault::UnknownUpdate { row_id } => vec![
                Word::Lit("update references unknown pre-existing piece row "),
                Word::Num(*row_id),
            ],
            OpFault::StartChanged { row_id } => vec![
                Word::Lit("piece row "), Word::Num(*row_id),
                Word::Lit(" buffer_id/start_byte changed"),
            ],
            OpFault::DuplicateWriteKey { .. } => vec![Word::Lit("duplicate write key")],
            OpFault::ChangeIdRange { current_change_id } => vec![
                Word::Lit("current_change_id "), Word::Wide(*current_change_id),
                Word::Lit(" is outside i64 range"),
            ],
            OpFault::ChangeIdMismatch { op_id, current_change_id } => vec![
                Word::Lit("envelope op_id "), Word::Num(*op_id),
                Word::Lit(" does not match current_change_id "),
                Word::Num(*current_change_id),
            ],
            OpFault::ListNumberMismatch { found, expected } => vec![
                Word::Lit("parent PieceText cell list_number "), Word::Num(*found),
                Word::Lit(" does not match envelope list_number "), Word::Num(*expected),
            ],
            OpFault::RemovedNext { row_id, next_id, expected } => vec![
                Word::Lit("removed row "), Word::Num(*row_id), Word::Lit(" next_id is "),
                Word::Num(*next_id), Word::Lit(", expected next removed row "),
                Word::Num(*expected),
            ],
            OpFault::RemovedPrev { row_id, prev_id, expected } => vec![
                Word::Lit("removed row "), Word::Num(*row_id), Word::Lit(" prev_id is "),
                Word::Num(*prev_id), Word::Lit(", expected previous removed row "),
                Word::Num(*expected),
            ],
            OpFault::RunNotAtHead { row_id, head_id } => vec![
                Word::Lit("run starts at row "), Word::Num(*row_id),
                Word::Lit(" (prev_id 0), but list head is "), Word::Num(*head_id),
            ],
            OpFault::RunNotAtTail { row_id, tail_id } => vec![
                Word::Lit("run ends at row "), Word::Num(*row_id),
                Word::Lit(" (next_id 0), but list tail is "), Word::Num(*tail_id),
            ],
            OpFault::SameSurvivors { survivor } => vec![
                Word::Lit("derived prev and next survivor are both "), Word::Num(*survivor),
            ],
            OpFault::SurvivorRemoved { survivor } => vec![
                Word::Lit("boundary survivor "), Word::Num(*survivor),
                Word::Lit(" is also a removed row"),
            ],
            OpFault::SurvivorShared { survivor } => vec![
                Word::Lit("boundary survivor "), Word::Num(*survivor),
                Word::Lit(" is used by more than one run"),
            ],
            OpFault::RemovedOtherList { row_id, found_list, list_number } => vec![
                Word::Lit("removed _piecetext_pieces row "), Word::Num(*row_id),
                Word::Lit(" belongs to list "), Word::Num(*found_list),
                Word::Lit(", expected "), Word::Num(*list_number),
            ],
            OpFault::RemovedLive { row_id } => vec![
                Word::Lit("removed _piecetext_pieces row "), Word::Num(*row_id),
                Word::Lit(" is not tombstoned"),
            ],
            OpFault::RemovedBuffer { row_id, buffer_id } => vec![
                Word::Lit("removed _piecetext_pieces row "), Word::Num(*row_id),
                Word::Lit(" has invalid buffer_id "), Word::Num(*buffer_id),
            ],
            OpFault::RemovedUnaligned { row_id, start_byte, len_bytes } => vec![
                Word::Lit("removed _piecetext_pieces row "), Word::Num(*row_id),
                Word::Lit(": _piecetext_pieces coord is not UTF-32 aligned (start_byte="),
                Word::Num(*start_byte as i64), Word::Lit(", len_bytes="),
                Word::Num(*len_bytes as i64), Word::Lit("); both must be multiples of 4"),
            ],
            OpFault::UnknownColumn { column } => vec![
                Word::Lit("column '"), Word::Name(column.clone()),
                Word::Lit("' does not exist in schema"),
            ],
            OpFault::ListColumn { column } => vec![
                Word::Lit("column '"), Word::Name(column.clone()),
                Word::Lit("' is a List column and cannot be modified by UPDATE — use list operations instead"),
            ],
            OpFault::PieceTextColumn { column } => vec![
                Word::Lit("column '"), Word::Name(column.clone()),
                Word::Lit("' is a PieceText column and cannot be modified by UPDATE — use PieceTextEdit instead"),
            ],
            OpFault::RowAbsent { table, row_id } => vec![
                Word::Name(table.clone()), Word::Lit(" row_id="), Word::Num(*row_id),
                Word::Lit(" does not exist; all planned old column reads were absent"),
            ],
            OpFault::UnexpectedRetention => vec![Word::Lit("unexpected _retention entries")],
            OpFault::NoKeyHistory => vec![Word::Lit("_key_history entries must not be empty")],
            OpFault::NoUsers => vec![Word::Lit("_users entries must not be empty")],
            OpFault::NotUsersTable { table } => vec![
                Word::Lit("must target _users table, got '"), Word::Name(table.clone()),
                Word::Lit("'"),
            ],
            OpFault::ColumnNotAllowed { column } => vec![
                Word::Lit("column '"), Word::Name(column.clone()),
                Word::Lit("' is not allowed (only [\"update_key\", \"auth_key\", \"status\"])"),
            ],
            OpFault::ValidToMismatch { valid_to, sig_ref } => vec![
                Word::Lit("_key_history.valid_to_change_id="), Word::Num(*valid_to),
                Word::Lit(" does not match entry.sig_ref="), Word::Num(*sig_ref as i64),
            ],
            OpFault::RangeBackward { valid_from, valid_to } => vec![
                Word::Lit("_key_history.valid_from_change_id="), Word::Num(*valid_from),
                Word::Lit(" must be <= valid_to_change_id="), Word::Num(*valid_to),
            ],
            OpFault::AuthKeyAbsent { uid } => vec![
                Word::Lit("_users.auth_key not found for uid="), Word::Num(*uid as i64),
            ],
            OpFault::AuthKeyMismatch { uid } => vec![
                Word::Lit("_key_history.old_auth_key does not match current _users.auth_key for uid="),
                Word::Num(*uid as i64),
            ],
            OpFault::DeletedAuthKeyAbsent { uid } => vec![
                Word::Lit("_users.auth_key not found for deleted uid="),
                Word::Num(*uid as i64),
            ],
            OpFault::DeletedAuthKeyMismatch { uid } => vec![
                Word::Lit("_key_history.old_auth_key does not match current _users.auth_key for deleted uid="),
                Word::Num(*uid as i64),
            ],
            OpFault::RangeOverlap { valid_from, valid_to, prev_from, prev_to, uid } => vec![
                Word::Lit("new _key_history range ["), Word::Num(*valid_from),
                Word::Lit(", "), Word::Num(*valid_to),
                Word::Lit("] overlaps existing range ["), Word::Num(*prev_from),
                Word::Lit(", "), Word::Num(*prev_to), Word::Lit("] for uid="),
                Word::Num(*uid as i64),
            ],
            OpFault::RangeGap { valid_from, expected_from, uid } => vec![
                Word::Lit("_key_history.valid_from_change_id="), Word::Num(*valid_from),
                Word::Lit(" must be "), Word::Num(*expected_from),
                Word::Lit(" (previous valid_to + 1) for uid="), Word::Num(*uid as i64),
            ],
            OpFault::FirstRotation { valid_from, uid } => vec![
                Word::Lit("_key_history.valid_from_change_id="), Word::Num(*valid_from),
                Word::Lit(" must be 0 for the first rotation of uid="),
                Word::Num(*uid as i64),
            ],
            OpFault::FirstHistory { valid_from, uid } => vec![
                Word::Lit("_key_history.valid_from_change_id="), Word::Num(*valid_from),
                Word::Lit(" must be 0 for the first history entry of uid="),
                Word::Num(*uid as i64),
            ],
            OpFault::ChangeIdZero => vec![
                Word::Lit("cannot derive valid_to_change_id from current_change_id=0"),
            ],
            OpFault::UserTable { table } => vec![
                Word::Lit("user columns target table '"), Word::Name(table.clone()),
                Word::Lit("', expected '_users'"),
            ],
            OpFault::DeletedRows { count } => vec![
                Word::Lit("expected exactly 1 deleted _users row, got "),
                Word::Count(*count),
            ],
            OpFault::MissingColumns { row_id, missing } => {
                let mut v = vec![
                    Word::Lit("row "), Word::Num(*row_id), Word::Lit(" is missing columns "),
                ];
                let mut list = words_of_list(missing);
                v.append(&mut list);
                v.push(Word::Lit(" — deletes must cover all columns"));
                v
            },
            OpFault::RetentionColumns { missing } => {
                let mut v = vec![Word::Lit("_retention insert missing columns ")];
                let mut list = words_of_list(missing);
                v.append(&mut list);
                v
            },
            OpFault::RetentionNoColumns => vec![Word::Lit("_retention has no schema columns")],
            OpFault::RetentionCount { count, columns } => vec![
                Word::Lit("_retention entry count "), Word::Count(*count),
                Word::Lit(" is not a multiple of col_count="), Word::Count(*columns),
            ],
        }
    }
}

/// What a [`OpFault`] says, with names as sequences of characters.
pub enum OpFaultView {
    NotPieceText { table: Seq<char>, column: Seq<char> },
    BadListNumber { list_number: i64 },
    ParentCellAbsent { table: Seq<char>, row_id: i64, column: Seq<char> },
    ParentCellCount { table: Seq<char>, row_id: i64, column: Seq<char>, found: usize },
    ParentCellWrongKey { table: Seq<char>, row_id: i64, column: Seq<char> },
    ParentMismatch { list_number: i64, owner_table: Seq<char>, owner_row_id: i64, owner_column: Seq<char>, table: Seq<char>, row_id: i64, column: Seq<char> },
    BufferIdNotPositive { buffer_id: i64 },
    BufferLenRange { buffer_id: i64, len_bytes: u32 },
    BufferOwner { buffer_id: i64, owner_table: Seq<char>, owner_row_id: i64, owner_column: Seq<char>, table: Seq<char>, row_id: i64, column: Seq<char> },
    RowRangeOverflow { row_id: i64 },
    RowPastBuffer { row_id: i64, buffer_id: i64, end: u32, len_bytes: u32 },
    PlannedRow { row_id: i64, start_byte: u32, len_bytes: u32 },
    PlannedUpdate { row_id: i64, start_byte: u32, len_bytes: u32 },
    UnknownUpdate { row_id: i64 },
    StartChanged { row_id: i64 },
    DuplicateWriteKey { key: KeyView },
    ChangeIdRange { current_change_id: u64 },
    ChangeIdMismatch { op_id: i64, current_change_id: i64 },
    ListNumberMismatch { found: i64, expected: i64 },
    RemovedNext { row_id: i64, next_id: i64, expected: i64 },
    RemovedPrev { row_id: i64, prev_id: i64, expected: i64 },
    RunNotAtHead { row_id: i64, head_id: i64 },
    RunNotAtTail { row_id: i64, tail_id: i64 },
    SameSurvivors { survivor: i64 },
    SurvivorRemoved { survivor: i64 },
    SurvivorShared { survivor: i64 },
    RemovedOtherList { row_id: i64, found_list: i64, list_number: i64 },
    RemovedLive { row_id: i64 },
    RemovedBuffer { row_id: i64, buffer_id: i64 },
    RemovedUnaligned { row_id: i64, start_byte: u32, len_bytes: u32 },
    UnknownColumn { column: Seq<char> },
    ListColumn { column: Seq<char> },
    PieceTextColumn { column: Seq<char> },
    RowAbsent { table: Seq<char>, row_id: i64 },
    UnexpectedRetention,
    NoKeyHistory,
    NoUsers,
    NotUsersTable { table: Seq<char> },
    ColumnNotAllowed { column: Seq<char> },
    ValidToMismatch { valid_to: i64, sig_ref: u32 },
    RangeBackward { valid_from: i64, valid_to: i64 },
    AuthKeyAbsent { uid: u32 },
    AuthKeyMismatch { uid: u32 },
    DeletedAuthKeyAbsent { uid: u32 },
    DeletedAuthKeyMismatch { uid: u32 },
    RangeOverlap { valid_from: i64, valid_to: i64, prev_from: i64, prev_to: i64, uid: u32 },
    RangeGap { valid_from: i64, expected_from: i64, uid: u32 },
    FirstRotation { valid_from: i64, uid: u32 },
    FirstHistory { valid_from: i64, uid: u32 },
    ChangeIdZero,
    UserTable { table: Seq<char> },
    DeletedRows { count: usize },
    MissingColumns { row_id: i64, missing: Seq<Seq<char>> },
    RetentionColumns { missing: Seq<Seq<char>> },
    RetentionNoColumns,
    RetentionCount { count: usize, columns: usize },
}

impl View for OpFault {
    type V = OpFaultView;

    open spec fn view(&self) -> OpFaultView {
        match *self {
            OpFault::NotPieceText { table, column } => OpFaultView::NotPieceText {
                table: table@,
                column: column@,
            },
            OpFault::BadListNumber { list_number } => OpFaultView::BadListNumber { list_number },
            OpFault::ParentCellAbsent { table, row_id, column } => OpFaultView::ParentCellAbsent {
                table: table@,
                row_id,
                column: column@,
            },
            OpFault::ParentCellCount { table, row_id, column, found } => OpFaultView::ParentCellCount {
                table: table@,
                row_id,
                column: column@,
                found,
            },
            OpFault::ParentCellWrongKey { table, row_id, column } => OpFaultView::ParentCellWrongKey {
                table: table@,
                row_id,
                column: column@,
            },
            OpFault::ParentMismatch { list_number, owner_table, owner_row_id, owner_column, table, row_id, column } => OpFaultView::ParentMismatch {
                list_number,
                owner_table: owner_table@,
                owner_row_id,
                owner_column: owner_column@,
                table: table@,
                row_id,
                column: column@,
            },
            OpFault::BufferIdNotPositive { buffer_id } => OpFaultView::BufferIdNotPositive {
                buffer_id,
            },
            OpFault::BufferLenRange { buffer_id, len_bytes } => OpFaultView::BufferLenRange {
                buffer_id,
                len_bytes,
            },
            OpFault::BufferOwner { buffer_id, owner_table, owner_row_id, owner_column, table, row_id, column } => OpFaultView::BufferOwner {
                buffer_id,
                owner_table: owner_table@,
                owner_row_id,
                owner_column: owner_column@,
                table: table@,
                row_id,
                column: column@,
            },
            OpFault::RowRangeOverflow { row_id } => OpFaultView::RowRangeOverflow { row_id },
            OpFault::RowPastBuffer { row_id, buffer_id, end, len_bytes } => OpFaultView::RowPastBuffer {
                row_id,
                buffer_id,
                end,
                len_bytes,
            },
            OpFault::PlannedRow { row_id, start_byte, len_bytes } => OpFaultView::PlannedRow {
                row_id,
                start_byte,
                len_bytes,
            },
            OpFault::PlannedUpdate { row_id, start_byte, len_bytes } => OpFaultView::PlannedUpdate {
                row_id,
                start_byte,
                len_bytes,
            },
            OpFault::UnknownUpdate { row_id } => OpFaultView::UnknownUpdate { row_id },
            OpFault::StartChanged { row_id } => OpFaultView::StartChanged { row_id },
            OpFault::DuplicateWriteKey { key } => OpFaultView::DuplicateWriteKey { key: key@ },
            OpFault::ChangeIdRange { current_change_id } => OpFaultView::ChangeIdRange {
                current_change_id,
            },
            OpFault::ChangeIdMismatch { op_id, current_change_id } => OpFaultView::ChangeIdMismatch {
                op_id,
                current_change_id,
            },
            OpFault::ListNumberMismatch { found, expected } => OpFaultView::ListNumberMismatch {
                found,
                expected,
            },
            OpFault::RemovedNext { row_id, next_id, expected } => OpFaultView::RemovedNext {
                row_id,
                next_id,
                expected,
            },
            OpFault::RemovedPrev { row_id, prev_id, expected } => OpFaultView::RemovedPrev {
                row_id,
                prev_id,
                expected,
            },
            OpFault::RunNotAtHead { row_id, head_id } => OpFaultView::RunNotAtHead {
                row_id,
                head_id,
            },
            OpFault::RunNotAtTail { row_id, tail_id } => OpFaultView::RunNotAtTail {
                row_id,
                tail_id,
            },
            OpFault::SameSurvivors { survivor } => OpFaultView::SameSurvivors { survivor },
            OpFault::SurvivorRemoved { survivor } => OpFaultView::SurvivorRemoved { survivor },
            OpFault::SurvivorShared { survivor } => OpFaultView::SurvivorShared { survivor },
            OpFault::RemovedOtherList { row_id, found_list, list_number } => OpFaultView::RemovedOtherList {
                row_id,
                found_list,
                list_number,
            },
            OpFault::RemovedLive { row_id } => OpFaultView::RemovedLive { row_id },
            OpFault::RemovedBuffer { row_id, buffer_id } => OpFaultView::RemovedBuffer {
                row_id,
                buffer_id,
            },
            OpFault::RemovedUnaligned { row_id, start_byte, len_bytes } => OpFaultView::RemovedUnaligned {
                row_id,
                start_byte,
                len_bytes,
            },
            OpFault::UnknownColumn { column } => OpFaultView::UnknownColumn { column: column@ },
            OpFault::ListColumn { column } => OpFaultView::ListColumn { column: column@ },
            OpFault::PieceTextColumn { column } => OpFaultView::PieceTextColumn { column: column@ },
            OpFault::RowAbsent { table, row_id } => OpFaultView::RowAbsent {
                table: table@,
                row_id,
            },
            OpFault::UnexpectedRetention => OpFaultView::UnexpectedRetention,
            OpFault::NoKeyHistory => OpFaultView::NoKeyHistory,
            OpFault::NoUsers => OpFaultView::NoUsers,
            OpFault::NotUsersTable { table } => OpFaultView::NotUsersTable { table: table@ },
            OpFault::ColumnNotAllowed { column } => OpFaultView::ColumnNotAllowed {
                column: column@,
            },
            OpFault::ValidToMismatch { valid_to, sig_ref } => OpFaultView::ValidToMismatch {
                valid_to,
                sig_ref,
            },
            OpFault::RangeBackward { valid_from, valid_to } => OpFaultView::RangeBackward {
                valid_from,
                valid_to,
            },
            OpFault::AuthKeyAbsent { uid } => OpFaultView::AuthKeyAbsent { uid },
            OpFault::AuthKeyMismatch { uid } => OpFaultView::AuthKeyMismatch { uid },
            OpFault::DeletedAuthKeyAbsent { uid } => OpFaultView::DeletedAuthKeyAbsent { uid },
            OpFault::DeletedAuthKeyMismatch { uid } => OpFaultView::DeletedAuthKeyMismatch { uid },
            OpFault::RangeOverlap { valid_from, valid_to, prev_from, prev_to, uid } => OpFaultView::RangeOverlap {
                valid_from,
                valid_to,
                prev_from,
                prev_to,
                uid,
            },
            OpFault::RangeGap { valid_from, expected_from, uid } => OpFaultView::RangeGap {
                valid_from,
                expected_from,
                uid,
            },
            OpFault::FirstRotation { valid_from, uid } => OpFaultView::FirstRotation {
                valid_from,
                uid,
            },
            OpFault::FirstHistory { valid_from, uid } => OpFaultView::FirstHistory {
                valid_from,
                uid,
            },
            OpFault::ChangeIdZero => OpFaultView::ChangeIdZero,
            OpFault::UserTable { table } => OpFaultView::UserTable { table: table@ },
            OpFault::DeletedRows { count } => OpFaultView::DeletedRows { count },
            OpFault::MissingColumns { row_id, missing } => OpFaultView::MissingColumns {
                row_id,
                missing: names_view(missing@),
            },
            OpFault::RetentionColumns { missing } => OpFaultView::RetentionColumns {
                missing: names_view(missing@),
            },
            OpFault::RetentionNoColumns => OpFaultView::RetentionNoColumns,
            OpFault::RetentionCount { count, columns } => OpFaultView::RetentionCount {
                count,
                columns,
            },
        }
    }
}

} // verus!
