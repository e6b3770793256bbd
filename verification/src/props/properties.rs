use vstd::prelude::*;

verus! {

/// The property id that stands for "matches a saved query" in the scalar index.
pub const QUERY_MATCH: u64 = 0xFFFF_FFFF_FFFF_FFFF;

/// The id of a registered property.
pub type PropertyId = u64;

/// A registered property: the key of an attribute, or the label of an edge.
#[derive(Clone, Copy, Debug, Hash, PartialEq, Eq, Structural)]
pub struct PropertyHandle(pub PropertyId);

} // verus!
