use vstd::prelude::*;

use crate::commands::add::{join_spaced, join_with_spaces};
use crate::data::{opt_view, str_views, Project, ProjectView};
use crate::error::Error;

verus! {

/// The set subcommands.
pub enum SetCommands {
    Title(SetTitleArgs),
    Description(SetDescArgs),
    Repo(SetRepoArgs),
}

/// The set command: one of its subcommands.
pub struct SetCmd {
    pub set_commands: SetCommands,
}

/// Arguments for setting the store's title.
pub struct SetTitleArgs {
    pub title: String,
}

/// Arguments for setting the store's description, given as words.
pub struct SetDescArgs {
    pub desc: Vec<String>,
}

/// Arguments for setting the store's repository link.
pub struct SetRepoArgs {
    pub repo: String,
}

/// Whether the url crate accepts the string as a URL.  The result depends
/// on the characters alone.
pub uninterp spec fn url_ok(s: Seq<char>) -> bool;

/// Relies on url::Url::parse: whether it accepts a string is a function of
/// that string alone.
#[verifier::external_body]
fn parse_url_ok(s: &String) -> (r: bool)
    ensures
        r == url_ok(s@),
{
    url::Url::parse(s).is_ok()
}

impl SetTitleArgs {
    /// Set the store's title; nothing else changes.
    pub fn apply(&self, project: &mut Project)
        ensures
            final(project)@ == (ProjectView { title: Some(self.title@), ..old(project)@ }),
            old(project)@.wf() ==> final(project)@.wf(),
    {
        project.information.title = Some(self.title.clone());
        proof {
            assert(final(project)@ =~= (ProjectView {
                title: Some(self.title@),
                ..old(project)@
            }));
            if old(project)@.wf() {
                lemma_info_change_keeps_wf(old(project)@, final(project)@);
            }
        }
    }
}

impl SetDescArgs {
    /// Set the store's description to the space-joined words; an empty
    /// word list fails with [`Error::MissingArgument`] and changes nothing.
    pub fn apply(&self, project: &mut Project) -> (r: Result<(), Error>)
        ensures
            str_views(self.desc@).len() == 0 ==> r == Err::<(), Error>(Error::MissingArgument)
                && final(project)@ == old(project)@,
            str_views(self.desc@).len() > 0 ==> r is Ok && final(project)@ == (ProjectView {
                description: Some(join_spaced(str_views(self.desc@))),
                ..old(project)@
            }),
            old(project)@.wf() ==> final(project)@.wf(),
    {
        if self.desc.is_empty() {
            return Err(Error::MissingArgument);
        }
        let joined = join_with_spaces(&self.desc);
        project.information.description = Some(joined);
        proof {
            assert(final(project)@ =~= (ProjectView {
                description: Some(join_spaced(str_views(self.desc@))),
                ..old(project)@
            }));
            if old(project)@.wf() {
                lemma_info_change_keeps_wf(old(project)@, final(project)@);
            }
        }
        Ok(())
    }
}

impl SetRepoArgs {
    /// Set the store's repository link, provided the url crate accepts it;
    /// a rejected link fails with [`Error::InvalidValue`] naming it, and
    /// changes nothing.
    pub fn apply(&self, project: &mut Project) -> (r: Result<(), Error>)
        ensures
            r is Ok <==> url_ok(self.repo@),
            r is Ok ==> final(project)@ == (ProjectView {
                repo: Some(self.repo@),
                ..old(project)@
            }),
            r is Err ==> final(project)@ == old(project)@ && (r matches Err(
                Error::InvalidValue(u),
            ) && str_views(u@) == seq![self.repo@]),
            old(project)@.wf() ==> final(project)@.wf(),
    {
        if !parse_url_ok(&self.repo) {
            let mut bad: Vec<String> = Vec::new();
            bad.push(self.repo.clone());
            proof {
                assert(str_views(bad@) =~= seq![self.repo@]);
            }
            return Err(Error::InvalidValue(bad));
        }
        project.information.repo = Some(self.repo.clone());
        proof {
            assert(final(project)@ =~= (ProjectView { repo: Some(self.repo@), ..old(project)@ }));
            if old(project)@.wf() {
                lemma_info_change_keeps_wf(old(project)@, final(project)@);
            }
        }
        Ok(())
    }
}

/// Changing only the information fields keeps the store well-formed.
proof fn lemma_info_change_keeps_wf(pre: ProjectView, post: ProjectView)
    requires
        pre.wf(),
        post.groups == pre.groups,
        post.active == pre.active,
    ensures
        post.wf(),
{
    assert(post.names() == pre.names());
    assert forall|i: int| 0 <= i < post.active.len() implies post.has_group(
        #[trigger] post.active[i],
    ) by {
        assert(pre.has_group(pre.active[i]));
    }
    assert forall|i: int| 0 <= i < post.groups.len() implies post.children_ok(
        #[trigger] post.groups[i],
    ) by {
        assert(pre.children_ok(pre.groups[i]));
        assert forall|j: int| 0 <= j < post.groups[i].children.len() implies post.has_group(
            #[trigger] post.groups[i].children[j],
        ) by {
            assert(pre.has_group(pre.groups[i].children[j]));
        }
    }
}

} // verus!
