//! Verified core of a piece-table text store kept in an authenticated
//! key-value tree.

use vstd::prelude::*;

pub mod changelog;
pub mod faults;
pub mod ops;
pub mod piece_text;
pub mod piece_text_agreement_laws;
pub mod piece_text_alike;
pub mod piece_text_chain;
pub mod piece_text_chain_splices;
pub mod piece_text_chain_walks;
pub mod piece_text_cleanup;
pub mod piece_text_edit;
pub mod piece_text_edit_laws;
pub mod piece_text_edit_writes;
pub mod piece_text_envelope_laws;
pub mod piece_text_inserts;
pub mod piece_text_laws;
pub mod piece_text_legacy_limits;
pub mod piece_text_net_changes;
pub mod piece_text_overlay;
pub mod piece_text_plan_laws;
pub mod piece_text_planner;
pub mod piece_text_planner_laws;
pub mod piece_text_resolution;
pub mod piece_text_resolution_laws;
pub mod piece_text_resolver;
pub mod piece_text_snapshot_laws;
pub mod piece_text_staging;
pub mod piece_text_upkeep;
pub mod storage;
pub mod wire;
pub mod wording;

verus! {

} // verus!
