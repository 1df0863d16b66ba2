//! Sizes that documents were once held to. Nothing enforces them on edits; they
//! bound walks over the rows of a document.

use vstd::prelude::*;

verus! {

/// Rows of a document, live and deleted.
pub const MAX_PIECETEXT_PIECES_PER_DOCUMENT: usize = 16384;

/// Live rows of a document.
pub const MAX_PIECETEXT_LIVE_PIECES_PER_DOCUMENT: usize = 4096;

} // verus!
