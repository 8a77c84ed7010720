use vstd::prelude::*;

verus! {

/// Arguments of the read command, which prints the raw store; the printing
/// lives with the persistence layer.
pub struct ReadArgs;

} // verus!
