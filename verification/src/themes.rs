use vstd::prelude::*;

verus! {

/// Four horizontal bands of night-sky colors.
pub struct Aurora;

/// A dark gradient crossed by three colored bars.
pub struct Cosmos;

} // verus!
