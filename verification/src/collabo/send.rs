//! What is on its way into a room.

use serde_json::Value;
use vstd::prelude::*;

verus! {

/// The author stamp the room puts on every element.
#[derive(Debug)]
pub struct Author {
    pub user_id: String,
    pub name: String,
    pub company_id: String,
    pub room_id: String,
    pub room_user_id: String,
}

/// A stroke the room has not been told of.
#[derive(Debug)]
pub struct Pending {
    /// The note's own id of the stroke.
    pub stroke_id: String,
    pub layer_id: String,
    pub stroke: Value,
}

/// A stroke the room has been told of: a row of the ledger.
#[derive(Debug)]
pub struct Ledger {
    /// The note's own id of the stroke.
    pub stroke_id: String,
    /// The id the room knows it by.
    pub element_id: String,
    pub layer_id: String,
}

/// A non-ink unit the room has not been told of. `U` is what the unit shows.
#[derive(Debug)]
pub struct PendingUnit<U> {
    pub unit_id: String,
    pub layer_id: String,
    pub content: U,
}

} // verus!
