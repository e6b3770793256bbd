use vstd::prelude::*;

verus! {

/// A saved query.
#[derive(Clone, Copy, Debug, Hash, PartialEq, Eq, Structural)]
pub struct QueryHandle(pub u64);

} // verus!
