//! OpenStreetMap data in memory: tagged nodes and ways, a chainable
//! filter-query engine over them, and a routable street network built
//! from filtered ways with shortest-path queries and persistence.

pub mod codec;
pub mod elements;
pub mod fastpath;
pub mod network;
pub mod queries;
pub mod structure;

use vstd::prelude::*;

verus! {

/// The error taxonomy of the library.
///
/// `NotFound`: a lookup by id found no record.
/// `MalformedInput`: a way referenced a node id absent from the node
/// collection while building a street network.
/// `SerializationFailure`: a persisted blob was corrupt or truncated.
#[derive(Clone, Copy, Debug, PartialEq, Eq, Structural)]
pub enum Error {
    NotFound,
    MalformedInput,
    SerializationFailure,
}

} // verus!
