use vstd::prelude::*;

use crate::data::{str_views, Project};
use crate::error::Error;
use crate::watchset::{select_into, select_outcome};

verus! {

/// Arguments of the select command: the groups to add to the watch set.
pub struct SelectArgs {
    pub group_names: Vec<String>,
}

impl SelectArgs {
    /// Select every named group and its descendant closure into the watch
    /// set; see [`select_outcome`] for the exact effect.
    pub fn apply(&self, project: &mut Project) -> (r: Result<(), Error>)
        ensures
            select_outcome(old(project)@, final(project)@, str_views(self.group_names@), r),
            old(project)@.wf() ==> final(project)@.wf(),
    {
        select_into(project, &self.group_names)
    }
}

} // verus!
