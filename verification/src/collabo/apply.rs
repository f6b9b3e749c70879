//! Directions as the note's document format reads them, and what applying one does.

use vstd::prelude::*;

verus! {

/// A ticket, its media type, and its bytes.
pub type Asset = (String, String, Vec<u8>);

/// One change that a direction carries. `C` is whatever else the document format
/// keeps of it.
#[derive(Debug)]
pub enum Change<C> {
    /// A stroke was added.
    Stroke { id: String, content: C },
    /// An element was erased.
    Remove { id: String },
    /// Any other change.
    Other(C),
}

/// One decoded direction.
#[derive(Debug)]
pub struct Direction<C> {
    pub changes: Vec<Change<C>>,
}

/// What applying one direction to a note did.
#[derive(Debug)]
pub struct Applied {
    pub units: usize,
    pub strokes: usize,
    /// Elements that were erased.
    pub removed: usize,
    /// Strokes now in the note, by the id the room knows them by, and their layer.
    pub stroke_ids: Vec<(String, String)>,
    pub assets: Vec<Asset>,
    /// Edit kinds that were received and not applied.
    pub unsupported: Vec<String>,
}

} // verus!
