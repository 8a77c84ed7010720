use vstd::prelude::*;

use crate::data::{
    clone_group, clone_notes, clone_tasks, clone_strings, group_views, opt_view, str_views, Group,
    GroupView, Project, ProjectView,
};
use crate::error::Error;

verus! {

/// Arguments of the create command: the new group's name and, optionally,
/// the parent group to link it under.
pub struct CreateArgs {
    pub group_name: String,
    pub parent_group: Option<String>,
}

/// When creation succeeds: the name is fresh and the parent, if named,
/// exists.
pub open spec fn create_ok(pv: ProjectView, name: Seq<char>, parent: Option<Seq<char>>) -> bool {
    &&& !pv.has_group(name)
    &&& match parent {
        Some(p) => pv.has_group(p),
        None => true,
    }
}

/// The store after appending `child` to the child list of the first group
/// named `parent`.
pub open spec fn link_child(pv: ProjectView, parent: Seq<char>, child: Seq<char>) -> ProjectView {
    let i = pv.idx_of(parent);
    ProjectView {
        groups: pv.groups.update(
            i,
            GroupView { children: pv.groups[i].children.push(child), ..pv.groups[i] },
        ),
        ..pv
    }
}

/// The store after creating the empty group `name`, linked under `parent`
/// when one is given.
pub open spec fn create_post(pv: ProjectView, name: Seq<char>, parent: Option<Seq<char>>) -> ProjectView {
    let linked = match parent {
        Some(p) => link_child(pv, p, name),
        None => pv,
    };
    ProjectView {
        groups: linked.groups.push(
            GroupView {
                name: name,
                notes: Seq::empty(),
                tasks: Seq::empty(),
                children: Seq::empty(),
            },
        ),
        ..linked
    }
}

/// Creating a fresh group keeps the store well-formed.
pub proof fn lemma_create_preserves_wf(pv: ProjectView, name: Seq<char>, parent: Option<Seq<char>>)
    requires
        pv.wf(),
        create_ok(pv, name, parent),
    ensures
        create_post(pv, name, parent).wf(),
{
    let post = create_post(pv, name, parent);
    let linked = match parent {
        Some(p) => link_child(pv, p, name),
        None => pv,
    };
    if parent is Some {
        crate::data::lemma_first_name_idx(pv.names(), parent->Some_0);
        assert(0 <= pv.idx_of(parent->Some_0) < pv.groups.len());
    }
    assert(linked.names() =~= pv.names());
    assert(post.names() =~= pv.names().push(name));
    let names = pv.names();
    assert forall|k: int| 0 <= k < names.len() implies names[k] != name by {
        if names[k] == name {
            assert(names.contains(name));
        }
    }
    assert(post.names().no_duplicates()) by {
        assert forall|i: int, j: int|
            0 <= i < post.names().len() && 0 <= j < post.names().len() && i != j implies post.names()[i]
            != post.names()[j] by {
            if i < names.len() && j < names.len() {
            } else if i == names.len() {
                assert(post.names()[j] == names[j]);
            } else {
                assert(post.names()[i] == names[i]);
            }
        }
    }
    assert forall|n: Seq<char>| pv.has_group(n) implies post.has_group(n) by {
        let k = choose|k: int| 0 <= k < names.len() && names[k] == n;
        assert(post.names()[k] == n);
    }
    assert(post.has_group(name)) by {
        assert(post.names()[names.len() as int] == name);
    }
    assert forall|i: int| 0 <= i < post.groups.len() implies post.children_ok(
        #[trigger] post.groups[i],
    ) by {
        let g = post.groups[i];
        if i == linked.groups.len() {
            assert(g.children.len() == 0);
        } else if parent is Some && i == pv.idx_of(parent->Some_0) {
            let old_g = pv.groups[i];
            assert(pv.children_ok(old_g));
            assert(g.children =~= old_g.children.push(name));
            assert forall|j: int| 0 <= j < g.children.len() implies post.has_group(
                #[trigger] g.children[j],
            ) by {
                if j < old_g.children.len() {
                    assert(pv.has_group(old_g.children[j]));
                } else {
                    assert(g.children[j] == name);
                }
            }
            assert(g.children.no_duplicates()) by {
                assert forall|x: int, y: int|
                    0 <= x < g.children.len() && 0 <= y < g.children.len() && x != y implies g.children[x]
                    != g.children[y] by {
                    if x < old_g.children.len() && y < old_g.children.len() {
                    } else if x == old_g.children.len() {
                        assert(pv.has_group(old_g.children[y]));
                        assert(g.children[y] != name);
                    } else {
                        assert(pv.has_group(old_g.children[x]));
                        assert(g.children[x] != name);
                    }
                }
            }
        } else {
            assert(g == pv.groups[i]);
            assert(pv.children_ok(g));
            assert forall|j: int| 0 <= j < g.children.len() implies post.has_group(
                #[trigger] g.children[j],
            ) by {
                assert(pv.has_group(g.children[j]));
            }
        }
    }
}

/// Creating a group makes it exist, so creating the same name a second
/// time must fail, whatever parent the second call names; the failed call
/// itself leaves the store unchanged (see `apply`).
pub proof fn lemma_create_twice(
    pv: ProjectView,
    name: Seq<char>,
    parent: Option<Seq<char>>,
    parent2: Option<Seq<char>>,
)
    requires
        create_ok(pv, name, parent),
    ensures
        create_post(pv, name, parent).has_group(name),
        !create_ok(create_post(pv, name, parent), name, parent2),
{
    let post = create_post(pv, name, parent);
    assert(post.names() =~= pv.names().push(name)) by {
        if parent is Some {
            crate::data::lemma_first_name_idx(pv.names(), parent->Some_0);
        }
    }
    assert(post.names()[pv.names().len() as int] == name);
}

impl CreateArgs {
    /// Create the group in the store.
    ///
    /// Fails with [`Error::AlreadyExists`] when the name is taken and with
    /// [`Error::NotFound`] when the named parent is absent; a failed call
    /// leaves the store untouched.
    pub fn apply(&self, project: &mut Project) -> (r: Result<(), Error>)
        ensures
            r is Ok <==> create_ok(
                old(project)@,
                self.group_name@,
                opt_view(self.parent_group),
            ),
            r is Ok ==> final(project)@ == create_post(
                old(project)@,
                self.group_name@,
                opt_view(self.parent_group),
            ),
            r is Err ==> final(project)@ == old(project)@,
            old(project)@.has_group(self.group_name@) ==> (r matches Err(Error::AlreadyExists(n))
                && n@ == self.group_name@),
            (!old(project)@.has_group(self.group_name@) && (opt_view(self.parent_group)
                matches Some(p) && !old(project)@.has_group(p))) ==> (r matches Err(
                Error::NotFound(m),
            ) && m@ == self.parent_group->Some_0@),
            old(project)@.wf() && r is Ok ==> final(project)@.wf(),
    {
        let ghost pv = project@;
        let ghost namev = self.group_name@;
        let ghost parentv = opt_view(self.parent_group);
        if project.contains_group(&self.group_name) {
            return Err(Error::AlreadyExists(self.group_name.clone()));
        }
        match &self.parent_group {
            Some(parent_name) => {
                match project.find_group(parent_name) {
                    None => Err(Error::NotFound(parent_name.clone())),
                    Some(pi) => {
                        let ghost linked = link_child(pv, parent_name@, namev);
                        let n = project.groups.len();
                        let mut new_groups: Vec<Group> = Vec::new();
                        proof {
                            crate::data::lemma_first_name_idx(pv.names(), parent_name@);
                            assert(group_views(new_groups@) =~= linked.groups.take(0));
                        }
                        for j in 0..n
                            invariant
                                *project == *old(project),
                                n == project.groups@.len(),
                                pi < n,
                                pi as int == pv.idx_of(parent_name@),
                                pv == project@,
                                linked == link_child(pv, parent_name@, namev),
                                namev == self.group_name@,
                                group_views(new_groups@) == linked.groups.take(j as int),
                        {
                            let ghost pre = group_views(new_groups@);
                            proof {
                                assert(linked.groups.len() == n);
                                assert(pre.len() == j as int);
                                assert(new_groups@.len() == j as int);
                            }
                            let g = &project.groups[j];
                            if j == pi {
                                let mut children = clone_strings(&g.groups);
                                children.push(self.group_name.clone());
                                new_groups.push(
                                    Group {
                                        name: g.name.clone(),
                                        notes: clone_notes(&g.notes),
                                        tasks: clone_tasks(&g.tasks),
                                        groups: children,
                                    },
                                );
                                proof {
                                    assert(group_views(new_groups@)[j as int]
                                        =~= linked.groups[j as int]);
                                }
                            } else {
                                new_groups.push(clone_group(g));
                                proof {
                                    assert(group_views(new_groups@)[j as int]
                                        == linked.groups[j as int]);
                                }
                            }
                            proof {
                                assert(group_views(new_groups@) =~= pre.push(
                                    group_views(new_groups@)[j as int],
                                ));
                                assert(group_views(new_groups@) =~= linked.groups.take(j + 1));
                            }
                        }
                        new_groups.push(Group::new(self.group_name.as_str()));
                        project.groups = new_groups;
                        proof {
                            assert(linked.groups.take(n as int) =~= linked.groups);
                            assert(final(project)@ =~= create_post(pv, namev, parentv));
                            if pv.wf() {
                                lemma_create_preserves_wf(pv, namev, parentv);
                            }
                        }
                        Ok(())
                    },
                }
            },
            None => {
                project.groups.push(Group::new(self.group_name.as_str()));
                proof {
                    assert(final(project)@ =~= create_post(pv, namev, parentv));
                    if pv.wf() {
                        lemma_create_preserves_wf(pv, namev, parentv);
                    }
                }
                Ok(())
            },
        }
    }
}

} // verus!
