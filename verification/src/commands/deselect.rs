use vstd::prelude::*;

use crate::data::{str_views, Project};
use crate::error::Error;
use crate::watchset::{deselect_from, deselect_outcome};

verus! {

/// Arguments of the deselect command: the groups to drop from the watch
/// set.
pub struct DeselectArgs {
    pub group_names: Vec<String>,
}

impl DeselectArgs {
    /// Deselect every named group and its descendant closure from the
    /// watch set; see [`deselect_outcome`] for the exact effect.
    pub fn apply(&self, project: &mut Project) -> (r: Result<(), Error>)
        ensures
            deselect_outcome(old(project)@, final(project)@, str_views(self.group_names@), r),
            old(project)@.wf() ==> final(project)@.wf(),
    {
        deselect_from(project, &self.group_names)
    }
}

} // verus!
