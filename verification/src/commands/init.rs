use vstd::prelude::*;

verus! {

/// Arguments of the init command, which writes a fresh, empty store to
/// disk; the store value it writes is `Project::new`.
pub struct InitArgs;

} // verus!
