use vstd::prelude::*;

use crate::data::{str_views, Project};
use crate::error::Error;
use crate::watchset::{select_into, select_outcome};

verus! {

/// Arguments of the watch command: the groups to add to the watch set.
pub struct WatchArgs {
    pub group_names: Vec<String>,
}

impl WatchArgs {
    /// Watch every named group and its descendant closure.
    ///
    /// All-or-nothing: unknown names and already-watched names are all
    /// collected and reported together, and a failed call leaves the store
    /// untouched.  On success the watch set becomes the sorted,
    /// duplicate-free union of the old watch set with the named groups and
    /// their descendants.
    pub fn apply(&self, project: &mut Project) -> (r: Result<(), Error>)
        ensures
            select_outcome(old(project)@, final(project)@, str_views(self.group_names@), r),
            old(project)@.wf() ==> final(project)@.wf(),
    {
        select_into(project, &self.group_names)
    }
}

} // verus!
