use vstd::prelude::*;

verus! {

/// Arguments of the info command, which shows the store's information
/// fields; the display lives with the command-line layer.
pub struct InfoArgs;

} // verus!
