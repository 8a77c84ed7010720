use vstd::prelude::*;

verus! {

/// Arguments of the check command, which looks for a store file on disk;
/// the lookup itself lives with the persistence layer.
pub struct CheckArgs;

} // verus!
