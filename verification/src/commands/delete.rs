use vstd::prelude::*;

use crate::data::{
    clone_group, drop_contained, keep_contained, lemma_drop_contained_props,
    lemma_keep_contained_props, names_of, group_views, str_views, vec_contains_string,
    retain_absent, DescResult, Group, GroupView, Project, ProjectView,
};
use crate::error::Error;
use crate::watchset::{lemma_not_created_push, not_created};

verus! {

/// Arguments of the delete command: the groups to remove, each together
/// with its whole descendant closure.
pub struct DeleteArgs {
    pub group_names: Vec<String>,
}

/// The groups of `gs` whose name is not listed in `del`, in order.
pub open spec fn groups_not_named(gs: Seq<GroupView>, del: Seq<Seq<char>>) -> Seq<GroupView> {
    gs.filter(|g: GroupView| !del.contains(g.name))
}

/// Dropping listed groups keeps only original groups and preserves the
/// uniqueness of names.
pub proof fn lemma_groups_not_named_props(gs: Seq<GroupView>, del: Seq<Seq<char>>)
    ensures
        forall|x: GroupView| #[trigger]
            groups_not_named(gs, del).contains(x) ==> gs.contains(x) && !del.contains(x.name),
        names_of(gs).no_duplicates() ==> names_of(groups_not_named(gs, del)).no_duplicates(),
    decreases gs.len(),
{
    reveal(Seq::filter);
    if gs.len() == 0 {
    } else {
        let rest = gs.drop_last();
        let last = gs.last();
        assert(names_of(rest).no_duplicates() || !names_of(gs).no_duplicates()) by {
            if names_of(gs).no_duplicates() {
                assert forall|i: int, j: int|
                    0 <= i < names_of(rest).len() && 0 <= j < names_of(rest).len() && i
                    != j implies names_of(rest)[i] != names_of(rest)[j] by {
                    assert(names_of(rest)[i] == names_of(gs)[i]);
                    assert(names_of(rest)[j] == names_of(gs)[j]);
                }
            }
        }
        lemma_groups_not_named_props(rest, del);
        let fr = groups_not_named(rest, del);
        assert(gs.drop_last() == rest);
        assert forall|x: GroupView| #[trigger]
            groups_not_named(gs, del).contains(x) implies gs.contains(x) && !del.contains(
            x.name,
        ) by {
            if !del.contains(last.name) && x == last {
                assert(gs[gs.len() - 1] == last);
            } else {
                assert(fr.contains(x)) by {
                    let k = choose|k: int|
                        0 <= k < groups_not_named(gs, del).len() && groups_not_named(gs, del)[k]
                            == x;
                    if !del.contains(last.name) {
                        assert(groups_not_named(gs, del) =~= fr.push(last));
                        assert(fr[k] == x);
                    } else {
                        assert(groups_not_named(gs, del) =~= fr);
                    }
                }
                assert(rest.contains(x));
                let m = choose|m: int| 0 <= m < rest.len() && rest[m] == x;
                assert(gs[m] == x);
            }
        }
        if names_of(gs).no_duplicates() {
            assert forall|x: GroupView| fr.contains(x) implies names_of(rest).contains(
                x.name,
            ) by {
                assert(rest.contains(x));
                let m = choose|m: int| 0 <= m < rest.len() && rest[m] == x;
                assert(names_of(rest)[m] == x.name);
            }
            if !del.contains(last.name) {
                assert(groups_not_named(gs, del) =~= fr.push(last));
                assert(!names_of(rest).contains(last.name)) by {
                    if names_of(rest).contains(last.name) {
                        let m = choose|m: int|
                            0 <= m < names_of(rest).len() && names_of(rest)[m] == last.name;
                        assert(names_of(gs)[m] == last.name);
                        assert(names_of(gs)[gs.len() - 1] == last.name);
                    }
                }
                let nf = names_of(fr.push(last));
                assert(nf =~= names_of(fr).push(last.name));
                assert(nf.no_duplicates()) by {
                    assert forall|i: int, j: int|
                        0 <= i < nf.len() && 0 <= j < nf.len() && i != j implies nf[i]
                        != nf[j] by {
                        if i < names_of(fr).len() && j < names_of(fr).len() {
                            assert(nf[i] == names_of(fr)[i] && nf[j] == names_of(fr)[j]);
                        } else if i == names_of(fr).len() {
                            assert(nf[j] == names_of(fr)[j]);
                            if nf[j] == last.name {
                                assert(fr.contains(fr[j]));
                                assert(names_of(rest).contains(fr[j].name));
                                assert(names_of(fr)[j] == fr[j].name);
                            }
                        } else {
                            assert(nf[i] == names_of(fr)[i]);
                            if nf[i] == last.name {
                                assert(fr.contains(fr[i]));
                                assert(names_of(rest).contains(fr[i].name));
                                assert(names_of(fr)[i] == fr[i].name);
                            }
                        }
                    }
                }
            } else {
                assert(groups_not_named(gs, del) =~= fr);
            }
        }
    }
}

/// Appending a group extends the name filter by at most that group.
pub proof fn lemma_groups_not_named_push(gs: Seq<GroupView>, del: Seq<Seq<char>>, x: GroupView)
    ensures
        groups_not_named(gs.push(x), del) == groups_not_named(gs, del) + if !del.contains(
            x.name,
        ) {
            seq![x]
        } else {
            Seq::<GroupView>::empty()
        },
{
    reveal(Seq::filter);
    assert(gs.push(x).drop_last() =~= gs);
    assert(groups_not_named(gs.push(x), del) =~= groups_not_named(gs, del) + if !del.contains(
        x.name,
    ) {
        seq![x]
    } else {
        Seq::<GroupView>::empty()
    });
}

/// Two name filters that ban the same names keep the same groups.
proof fn lemma_groups_not_named_congruent(
    gs: Seq<GroupView>,
    del1: Seq<Seq<char>>,
    del2: Seq<Seq<char>>,
)
    requires
        forall|x: Seq<char>| #[trigger] del1.contains(x) == del2.contains(x),
    ensures
        groups_not_named(gs, del1) == groups_not_named(gs, del2),
    decreases gs.len(),
{
    reveal(Seq::filter);
    if gs.len() == 0 {
        assert(groups_not_named(gs, del1) =~= groups_not_named(gs, del2));
    } else {
        lemma_groups_not_named_congruent(gs.drop_last(), del1, del2);
        assert(groups_not_named(gs, del1) =~= groups_not_named(gs, del2));
    }
}

/// Only the membership of the resolved deletion list matters: two lists
/// naming the same groups delete to the same store, so the order in which
/// the groups are taken out cannot change the final state.
pub proof fn lemma_delete_order_irrelevant(
    pv: ProjectView,
    del1: Seq<Seq<char>>,
    del2: Seq<Seq<char>>,
)
    requires
        del1.to_set() == del2.to_set(),
    ensures
        delete_post(pv, del1) == delete_post(pv, del2),
{
    assert forall|x: Seq<char>| #[trigger] del1.contains(x) == del2.contains(x) by {
        assert(del1.to_set().contains(x) == del1.contains(x));
        assert(del2.to_set().contains(x) == del2.contains(x));
    }
    lemma_groups_not_named_congruent(pv.groups, del1, del2);
    crate::data::lemma_drop_contained_congruent(pv.active, del1, del2);
    assert(delete_post(pv, del1) =~= delete_post(pv, del2));
}

/// The store after deleting every group listed in `del`: those groups are
/// gone, the watch set loses their names, and the cleanup pass strips the
/// child references left dangling by the removal.
pub open spec fn delete_post(pv: ProjectView, del: Seq<Seq<char>>) -> ProjectView {
    let kept = groups_not_named(pv.groups, del);
    let kept_names = names_of(kept);
    ProjectView {
        groups: kept.map(
            |i: int, g: GroupView| GroupView {
                children: keep_contained(g.children, kept_names),
                ..g
            },
        ),
        active: drop_contained(pv.active, del),
        ..pv
    }
}

/// What deleting `names` does: all-or-nothing validation, then the store
/// becomes [`delete_post`] of the resolved closure.
pub open spec fn delete_outcome(
    pre: ProjectView,
    post: ProjectView,
    names: Seq<Seq<char>>,
    r: Result<(), Error>,
) -> bool {
    let nc = not_created(pre, names);
    if names.len() == 0 {
        r == Err::<(), Error>(Error::MissingArgument) && post == pre
    } else if nc.len() > 0 {
        (r matches Err(Error::InvalidValue(u)) && str_views(u@) == nc) && post == pre
    } else {
        match pre.closure_list(names, pre.groups.len() as nat) {
            DescResult::Found(del) => r is Ok && post == delete_post(pre, del),
            DescResult::Missing(m) => (r matches Err(Error::NotFound(n)) && n@ == m) && post
                == pre,
            DescResult::Depth => r == Err::<(), Error>(Error::CycleDetected) && post == pre,
        }
    }
}

/// Deleting listed groups keeps the store well-formed.
pub proof fn lemma_delete_preserves_wf(pv: ProjectView, del: Seq<Seq<char>>)
    requires
        pv.wf(),
    ensures
        delete_post(pv, del).wf(),
{
    broadcast use vstd::seq_lib::group_filter_ensures;

    let post = delete_post(pv, del);
    let kept = groups_not_named(pv.groups, del);
    let kept_names = names_of(kept);
    lemma_groups_not_named_props(pv.groups, del);
    lemma_drop_contained_props(pv.active, del);
    assert(post.names() =~= kept_names);
    assert(post.names().no_duplicates());
    assert forall|i: int| 0 <= i < post.active.len() implies post.has_group(
        #[trigger] post.active[i],
    ) by {
        let a = post.active[i];
        assert(post.active.contains(a));
        assert(pv.active.contains(a) && !del.contains(a));
        assert(pv.has_group(a));
        let k = choose|k: int| 0 <= k < pv.names().len() && pv.names()[k] == a;
        assert(pv.groups[k].name == a);
        assert(kept.contains(pv.groups[k]));
        let m = choose|m: int| 0 <= m < kept.len() && kept[m] == pv.groups[k];
        assert(kept_names[m] == a);
        assert(post.names().contains(a));
    }
    assert forall|i: int| 0 <= i < post.groups.len() implies post.children_ok(
        #[trigger] post.groups[i],
    ) by {
        let g = post.groups[i];
        let kg = kept[i];
        assert(g == (GroupView { children: keep_contained(kg.children, kept_names), ..kg }));
        assert(kept.contains(kg));
        assert(pv.groups.contains(kg));
        let k = choose|k: int| 0 <= k < pv.groups.len() && pv.groups[k] == kg;
        assert(pv.children_ok(pv.groups[k]));
        lemma_keep_contained_props(kg.children, kept_names);
        assert forall|j: int| 0 <= j < g.children.len() implies post.has_group(
            #[trigger] g.children[j],
        ) by {
            assert(g.children.contains(g.children[j]));
            assert(kept_names.contains(g.children[j]));
            assert(post.names() == kept_names);
        }
    }
}

impl DeleteArgs {
    /// Delete every named group together with its full descendant closure.
    ///
    /// Fails with [`Error::MissingArgument`] on an empty request and with
    /// [`Error::InvalidValue`] naming every unknown group (checked before
    /// anything is removed); a failed call leaves the store untouched.  On
    /// success the deleted groups leave the watch set too, and every child
    /// reference left dangling by the removal is stripped.
    pub fn apply(&self, project: &mut Project) -> (r: Result<(), Error>)
        ensures
            delete_outcome(old(project)@, final(project)@, str_views(self.group_names@), r),
            old(project)@.wf() ==> final(project)@.wf(),
    {
        let ghost pre = project@;
        if self.group_names.is_empty() {
            proof {
                assert(str_views(self.group_names@).len() == 0);
            }
            return Err(Error::MissingArgument);
        }
        let mut undefined: Vec<String> = Vec::new();
        let n = self.group_names.len();
        proof {
            reveal(Seq::filter);
            assert(str_views(self.group_names@).take(0) =~= Seq::<Seq<char>>::empty());
            assert(str_views(undefined@) =~= not_created(
                project@,
                str_views(self.group_names@).take(0),
            ));
        }
        for i in 0..n
            invariant
                n == self.group_names@.len(),
                *project == *old(project),
                str_views(undefined@) == not_created(
                    project@,
                    str_views(self.group_names@).take(i as int),
                ),
        {
            let ghost pre_u = str_views(undefined@);
            if !project.contains_group(&self.group_names[i]) {
                undefined.push(self.group_names[i].clone());
            }
            proof {
                let nv = str_views(self.group_names@);
                assert(nv[i as int] == self.group_names@[i as int]@);
                assert(nv.take(i as int).push(nv[i as int]) =~= nv.take(i + 1));
                lemma_not_created_push(project@, nv.take(i as int), nv[i as int]);
                if !project@.has_group(nv[i as int]) {
                    assert(str_views(undefined@) =~= pre_u + seq![nv[i as int]]);
                } else {
                    assert(str_views(undefined@) =~= pre_u + Seq::<Seq<char>>::empty());
                }
            }
        }
        proof {
            assert(str_views(self.group_names@).take(n as int) =~= str_views(self.group_names@));
        }
        if undefined.len() > 0 {
            return Err(Error::InvalidValue(undefined));
        }
        let to_delete = match project.closure_walk(&self.group_names, 0) {
            Ok(v) => v,
            Err(e) => {
                proof {
                    assert(str_views(self.group_names@).skip(0) =~= str_views(self.group_names@));
                }
                return Err(e);
            },
        };
        proof {
            assert(str_views(self.group_names@).skip(0) =~= str_views(self.group_names@));
        }
        let ghost del = str_views(to_delete@);
        let ghost kept_spec = groups_not_named(pre.groups, del);
        // drop the listed groups
        let gn = project.groups.len();
        let mut kept: Vec<Group> = Vec::new();
        proof {
            reveal(Seq::filter);
            assert(pre.groups.take(0) =~= Seq::<GroupView>::empty());
            assert(group_views(kept@) =~= groups_not_named(pre.groups.take(0), del));
        }
        for i in 0..gn
            invariant
                gn == project.groups@.len(),
                *project == *old(project),
                pre == project@,
                del == str_views(to_delete@),
                group_views(kept@) == groups_not_named(pre.groups.take(i as int), del),
        {
            let ghost pre_k = group_views(kept@);
            let g = &project.groups[i];
            if !vec_contains_string(&to_delete, &g.name) {
                kept.push(clone_group(g));
            }
            proof {
                assert(pre.groups[i as int] == project.groups@[i as int]@);
                assert(pre.groups.take(i as int).push(pre.groups[i as int]) =~= pre.groups.take(
                    i + 1,
                ));
                lemma_groups_not_named_push(pre.groups.take(i as int), del, pre.groups[i as int]);
                if !del.contains(pre.groups[i as int].name) {
                    assert(group_views(kept@) =~= pre_k + seq![pre.groups[i as int]]);
                } else {
                    assert(group_views(kept@) =~= pre_k + Seq::<GroupView>::empty());
                }
            }
        }
        proof {
            assert(pre.groups.take(gn as int) =~= pre.groups);
        }
        // drop the deleted names from the watch set
        let filtered_active = retain_absent(&project.active_groups, &to_delete);
        project.groups = kept;
        project.active_groups = filtered_active;
        // strip the child references left dangling by the removal
        project.clean();
        proof {
            let mid = ProjectView { groups: kept_spec, active: drop_contained(pre.active, del), ..pre };
            assert(mid.names() == names_of(kept_spec));
            let fpv = final(project)@;
            assert(fpv =~= delete_post(pre, del)) by {
                assert(fpv.groups.len() == delete_post(pre, del).groups.len());
                assert forall|i: int| 0 <= i < fpv.groups.len() implies fpv.groups[i]
                    =~= delete_post(pre, del).groups[i] by {}
            }
            if pre.wf() {
                lemma_delete_preserves_wf(pre, del);
            }
        }
        Ok(())
    }
}

} // verus!
