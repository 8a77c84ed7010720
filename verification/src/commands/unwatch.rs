use vstd::prelude::*;

use crate::data::{str_views, Project, ProjectView};
use crate::error::Error;
use crate::watchset::{deselect_from, deselect_outcome};

verus! {

/// Arguments of the unwatch command: the groups to drop from the watch
/// set, or `all` to empty it outright.
pub struct UnwatchArgs {
    pub group_names: Vec<String>,
    pub all: bool,
}

impl UnwatchArgs {
    /// Unwatch the named groups and their descendant closures, or, with
    /// `all` set, empty the watch set (an error when nothing is watched).
    ///
    /// A failed call leaves the store untouched.
    pub fn apply(&self, project: &mut Project) -> (r: Result<(), Error>)
        ensures
            self.all && old(project)@.active.len() == 0 ==> r == Err::<(), Error>(Error::IoError)
                && final(project)@ == old(project)@,
            self.all && old(project)@.active.len() > 0 ==> r is Ok && final(project)@
                == (ProjectView { active: Seq::empty(), ..old(project)@ }),
            !self.all ==> deselect_outcome(
                old(project)@,
                final(project)@,
                str_views(self.group_names@),
                r,
            ),
            old(project)@.wf() ==> final(project)@.wf(),
    {
        if self.all {
            if project.active_groups.is_empty() {
                return Err(Error::IoError);
            }
            project.active_groups = Vec::new();
            proof {
                assert(final(project)@ =~= (ProjectView {
                    active: Seq::empty(),
                    ..old(project)@
                }));
                if old(project)@.wf() {
                    let post = final(project)@;
                    assert forall|i: int| 0 <= i < post.groups.len() implies post.children_ok(
                        #[trigger] post.groups[i],
                    ) by {
                        assert(old(project)@.children_ok(old(project)@.groups[i]));
                    }
                }
            }
            Ok(())
        } else {
            deselect_from(project, &self.group_names)
        }
    }
}

} // verus!
