//! The persistence core of a desktop whiteboard: named boards with opaque
//! canvas documents, an ordered board list that may group boards into
//! folders, an always-resolvable active board, a one-time migration from a
//! legacy flat-file layout, and bulk export/import with collision-safe
//! renaming. Every operation is specified against a mathematical view of
//! the store and verified; reading and writing the rows themselves is left
//! to a thin unverified rim.

pub mod effects;
pub mod export;
pub mod laws;
pub mod listing;
pub mod migrate;
pub mod names;
pub mod models;
pub mod ops;
pub mod store;

use vstd::prelude::*;

verus! {

/// The serialized payload of a board whose canvas was never drawn on.
pub open spec fn spec_default_board_data() -> Seq<char> {
    "{\"excalidraw\":null,\"excalidraw-state\":null}"@
}

/// Every board owns exactly one document blob; a board that was never saved
/// reads back as this fixed empty-canvas payload.
pub fn default_board_data() -> (r: String)
    ensures
        r@ == spec_default_board_data(),
{
    String::from_str("{\"excalidraw\":null,\"excalidraw-state\":null}")
}

} // verus!
