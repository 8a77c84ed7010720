use vstd::prelude::*;

verus! {

/// The failures a store operation can report.
///
/// Batch operations collect every offending input before failing, so the
/// list-carrying variants always name all violations at once.  Out-of-range
/// ids are carried as numbers; rendering them for display is the caller's
/// concern.
#[derive(Debug, Clone, PartialEq)]
pub enum Error {
    /// The named group (or the store itself) does not exist.
    NotFound(String),
    /// A group with the given name already exists.
    AlreadyExists(String),
    /// A required argument list was empty.
    MissingArgument,
    /// The named groups are not present in the store.
    InvalidValue(Vec<String>),
    /// The given 1-based ids fall outside the valid range.
    InvalidIds(Vec<usize>),
    /// Watch-set validation failed: `not_created` do not exist, and
    /// `invalid_state` are already in (or already out of) the watch set.
    ValueValidation { not_created: Vec<String>, invalid_state: Vec<String> },
    /// The descendant resolver hit its depth bound: the group graph is cyclic.
    CycleDetected,
    /// The persistence layer failed, or there was nothing to operate on.
    IoError,
}

} // verus!
