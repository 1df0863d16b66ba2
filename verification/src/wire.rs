//! The bytes of envelopes, as the `postcard` crate writes and reads them.
//!
//! An envelope goes over the wire as nested tuples of its fields. A tuple is
//! written as its parts one after the other, which is also how a struct with
//! these fields is written; a `Result` is written as an enum of two variants.

use vstd::prelude::*;

verus! {

/// One operation of an edit: what is inserted where, or what is deleted.
pub type WireItem = Result<((i64, u32), (u32, u32, [u8; 32])), ((i64, u32), (i64, u32))>;

/// Table, row and column of a cell.
pub type WireAddress = (String, i64, String);

pub type WireAddressView = (Seq<char>, i64, Seq<char>);

pub open spec fn wire_address(address: WireAddress) -> WireAddressView {
    (address.0@, address.1, address.2@)
}

// ---------- edits ----------

pub type EditWire = (u8, [u8; 16], WireAddress, Vec<WireItem>);

pub type EditWireView = (u8, Seq<u8>, WireAddressView, Seq<WireItem>);

/// What `postcard::to_allocvec` makes of the parts of an edit envelope.
pub uninterp spec fn edit_bytes(parts: EditWireView) -> Seq<u8>;

/// What `postcard::take_from_bytes` reads as the parts of an edit envelope, and
/// how many bytes it leaves, or what its error says.
pub uninterp spec fn edit_parts(bytes: Seq<u8>) -> Result<(EditWireView, nat), Seq<char>>;

/// Calls `postcard::to_allocvec`. Nothing of these types makes it fail; its
/// result is named, and reading it back gives the same parts and leaves nothing.
#[verifier::external_body]
pub(crate) fn encode_edit(
    version: u8,
    op_id: &[u8; 16],
    table: &str,
    row_id: i64,
    column: &str,
    ops: &Vec<WireItem>,
) -> (r: Option<Vec<u8>>)
    ensures
        r is Some,
        r->Some_0@ == edit_bytes((version, op_id@, (table@, row_id, column@), ops@)),
        edit_parts(r->Some_0@) is Ok,
        edit_parts(r->Some_0@)->Ok_0 == (
            (version, op_id@, (table@, row_id, column@), ops@),
            0nat,
        ),
{
    postcard::to_allocvec(&(version, op_id, (table, row_id, column), ops)).ok()
}

/// Calls `postcard::take_from_bytes`, and gives the length of what it leaves, or
/// the text of its error. Its result is named.
#[verifier::external_body]
pub(crate) fn decode_edit(bytes: &[u8]) -> (r: Result<(EditWire, usize), String>)
    ensures
        match edit_parts(bytes@) {
            Err(cause) => r matches Err(x) && x@ == cause,
            Ok((parts, left)) => r matches Ok((wire, n)) && (
                wire.0,
                wire.1@,
                wire_address(wire.2),
                wire.3@,
            ) == parts && n == left,
        },
{
    match postcard::take_from_bytes::<EditWire>(bytes) {
        Ok((wire, rest)) => Ok((wire, rest.len())),
        Err(e) => Err(e.to_string()),
    }
}

// ---------- cleanups of pieces ----------

pub type PiecesWire = (u8, WireAddress, i64, i64, Vec<Vec<i64>>);

pub type PiecesWireView = (u8, WireAddressView, i64, i64, Seq<Seq<i64>>);

pub open spec fn runs_view(runs: Seq<Vec<i64>>) -> Seq<Seq<i64>> {
    Seq::new(runs.len(), |i: int| runs[i]@)
}

/// What `postcard::to_allocvec` makes of the parts of a piece-cleanup envelope.
pub uninterp spec fn cleanup_pieces_bytes(parts: PiecesWireView) -> Seq<u8>;

/// What `postcard::take_from_bytes` reads as the parts of a piece-cleanup
/// envelope, and how many bytes it leaves, or what its error says.
pub uninterp spec fn cleanup_pieces_parts(bytes: Seq<u8>) -> Result<(PiecesWireView, nat), Seq<char>>;

/// Calls `postcard::to_allocvec`. Nothing of these types makes it fail; its
/// result is named, and reading it back gives the same parts and leaves nothing.
#[verifier::external_body]
pub(crate) fn encode_cleanup_pieces(
    version: u8,
    table: &str,
    row_id: i64,
    column: &str,
    list_number: i64,
    op_id: i64,
    runs: &Vec<Vec<i64>>,
) -> (r: Option<Vec<u8>>)
    ensures
        r is Some,
        r->Some_0@ == cleanup_pieces_bytes(
            (version, (table@, row_id, column@), list_number, op_id, runs_view(runs@)),
        ),
        cleanup_pieces_parts(r->Some_0@) is Ok,
        cleanup_pieces_parts(r->Some_0@)->Ok_0 == (
            (version, (table@, row_id, column@), list_number, op_id, runs_view(runs@)),
            0nat,
        ),
{
    postcard::to_allocvec(&(version, (table, row_id, column), list_number, op_id, runs)).ok()
}

/// Calls `postcard::take_from_bytes`, and gives the length of what it leaves, or
/// the text of its error. Its result is named.
#[verifier::external_body]
pub(crate) fn decode_cleanup_pieces(bytes: &[u8]) -> (r: Result<(PiecesWire, usize), String>)
    ensures
        match cleanup_pieces_parts(bytes@) {
            Err(cause) => r matches Err(x) && x@ == cause,
            Ok((parts, left)) => r matches Ok((wire, n)) && (
                wire.0,
                wire_address(wire.1),
                wire.2,
                wire.3,
                runs_view(wire.4@),
            ) == parts && n == left,
        },
{
    match postcard::take_from_bytes::<PiecesWire>(bytes) {
        Ok((wire, rest)) => Ok((wire, rest.len())),
        Err(e) => Err(e.to_string()),
    }
}

// ---------- cleanups of buffers ----------

pub type BuffersWire = (u8, WireAddress, i64, Vec<i64>);

pub type BuffersWireView = (u8, WireAddressView, i64, Seq<i64>);

/// What `postcard::to_allocvec` makes of the parts of a buffer-cleanup envelope.
pub uninterp spec fn cleanup_buffers_bytes(parts: BuffersWireView) -> Seq<u8>;

/// What `postcard::take_from_bytes` reads as the parts of a buffer-cleanup
/// envelope, and how many bytes it leaves, or what its error says.
pub uninterp spec fn cleanup_buffers_parts(bytes: Seq<u8>) -> Result<(BuffersWireView, nat), Seq<char>>;

/// Calls `postcard::to_allocvec`. Nothing of these types makes it fail; its
/// result is named, and reading it back gives the same parts and leaves nothing.
#[verifier::external_body]
pub(crate) fn encode_cleanup_buffers(
    version: u8,
    table: &str,
    row_id: i64,
    column: &str,
    op_id: i64,
    buffer_removals: &Vec<i64>,
) -> (r: Option<Vec<u8>>)
    ensures
        r is Some,
        r->Some_0@ == cleanup_buffers_bytes(
            (version, (table@, row_id, column@), op_id, buffer_removals@),
        ),
        cleanup_buffers_parts(r->Some_0@) is Ok,
        cleanup_buffers_parts(r->Some_0@)->Ok_0 == (
            (version, (table@, row_id, column@), op_id, buffer_removals@),
            0nat,
        ),
{
    postcard::to_allocvec(&(version, (table, row_id, column), op_id, buffer_removals)).ok()
}

/// Calls `postcard::take_from_bytes`, and gives the length of what it leaves, or
/// the text of its error. Its result is named.
#[verifier::external_body]
pub(crate) fn decode_cleanup_buffers(bytes: &[u8]) -> (r: Result<(BuffersWire, usize), String>)
    ensures
        match cleanup_buffers_parts(bytes@) {
            Err(cause) => r matches Err(x) && x@ == cause,
            Ok((parts, left)) => r matches Ok((wire, n)) && (
                wire.0,
                wire_address(wire.1),
                wire.2,
                wire.3@,
            ) == parts && n == left,
        },
{
    match postcard::take_from_bytes::<BuffersWire>(bytes) {
        Ok((wire, rest)) => Ok((wire, rest.len())),
        Err(e) => Err(e.to_string()),
    }
}

} // verus!
