use vstd::prelude::*;

use crate::data::{
    lemma_drop_contained_props, drop_contained, str_views, vec_contains_string, retain_absent,
    DescResult, Project, ProjectView,
};
use crate::error::Error;
use crate::order::{lemma_strictly_sorted_no_duplicates, strictly_sorted, watch_union};

verus! {

/// The names of `names` that do not exist in the store, in order.
pub open spec fn not_created(pv: ProjectView, names: Seq<Seq<char>>) -> Seq<Seq<char>> {
    names.filter(|n: Seq<char>| !pv.has_group(n))
}

/// The existing names of `names` that are already watched, in order.
pub open spec fn already_active(pv: ProjectView, names: Seq<Seq<char>>) -> Seq<Seq<char>> {
    names.filter(|n: Seq<char>| pv.has_group(n) && pv.active.contains(n))
}

/// The existing names of `names` that are not watched, in order.
pub open spec fn inactive(pv: ProjectView, names: Seq<Seq<char>>) -> Seq<Seq<char>> {
    names.filter(|n: Seq<char>| pv.has_group(n) && !pv.active.contains(n))
}

/// Appending a name extends the unknown-name filter by at most that name.
pub proof fn lemma_not_created_push(pv: ProjectView, v: Seq<Seq<char>>, x: Seq<char>)
    ensures
        not_created(pv, v.push(x)) == not_created(pv, v) + if !pv.has_group(x) {
            seq![x]
        } else {
            Seq::<Seq<char>>::empty()
        },
{
    reveal(Seq::filter);
    assert(v.push(x).drop_last() =~= v);
    assert(not_created(pv, v.push(x)) =~= not_created(pv, v) + if !pv.has_group(x) {
        seq![x]
    } else {
        Seq::<Seq<char>>::empty()
    });
}

/// Appending a name extends the already-watched filter by at most that name.
pub proof fn lemma_already_active_push(pv: ProjectView, v: Seq<Seq<char>>, x: Seq<char>)
    ensures
        already_active(pv, v.push(x)) == already_active(pv, v) + if pv.has_group(x)
            && pv.active.contains(x) {
            seq![x]
        } else {
            Seq::<Seq<char>>::empty()
        },
{
    reveal(Seq::filter);
    assert(v.push(x).drop_last() =~= v);
    assert(already_active(pv, v.push(x)) =~= already_active(pv, v) + if pv.has_group(x)
        && pv.active.contains(x) {
        seq![x]
    } else {
        Seq::<Seq<char>>::empty()
    });
}

/// Appending a name extends the not-watched filter by at most that name.
pub proof fn lemma_inactive_push(pv: ProjectView, v: Seq<Seq<char>>, x: Seq<char>)
    ensures
        inactive(pv, v.push(x)) == inactive(pv, v) + if pv.has_group(x) && !pv.active.contains(
            x,
        ) {
            seq![x]
        } else {
            Seq::<Seq<char>>::empty()
        },
{
    reveal(Seq::filter);
    assert(v.push(x).drop_last() =~= v);
    assert(inactive(pv, v.push(x)) =~= inactive(pv, v) + if pv.has_group(x) && !pv.active.contains(
        x,
    ) {
        seq![x]
    } else {
        Seq::<Seq<char>>::empty()
    });
}

/// What selecting `names` does: all-or-nothing validation, then the watch
/// set becomes the sorted, duplicate-free union of the old watch set with
/// every named group and its full descendant closure.
pub open spec fn select_outcome(
    pre: ProjectView,
    post: ProjectView,
    names: Seq<Seq<char>>,
    r: Result<(), Error>,
) -> bool {
    let nc = not_created(pre, names);
    let aa = already_active(pre, names);
    if names.len() == 0 {
        r == Err::<(), Error>(Error::MissingArgument) && post == pre
    } else if nc.len() > 0 || aa.len() > 0 {
        &&& (r matches Err(Error::ValueValidation { not_created: u, invalid_state: a })
            && str_views(u@) == nc && str_views(a@) == aa)
        &&& post == pre
    } else {
        match pre.closure_list(names, pre.groups.len() as nat) {
            DescResult::Found(cl) => {
                &&& r is Ok
                &&& strictly_sorted(post.active)
                &&& post.active.to_set() == pre.active.to_set() + cl.to_set()
                &&& post == (ProjectView { active: post.active, ..pre })
            },
            DescResult::Missing(m) => (r matches Err(Error::NotFound(n)) && n@ == m) && post
                == pre,
            DescResult::Depth => r == Err::<(), Error>(Error::CycleDetected) && post == pre,
        }
    }
}

/// What deselecting `names` does: all-or-nothing validation, then every
/// named group and its full descendant closure leaves the watch set, whose
/// remaining entries keep their order.
pub open spec fn deselect_outcome(
    pre: ProjectView,
    post: ProjectView,
    names: Seq<Seq<char>>,
    r: Result<(), Error>,
) -> bool {
    let nc = not_created(pre, names);
    let na = inactive(pre, names);
    if names.len() == 0 {
        r == Err::<(), Error>(Error::MissingArgument) && post == pre
    } else if nc.len() > 0 || na.len() > 0 {
        &&& (r matches Err(Error::ValueValidation { not_created: u, invalid_state: a })
            && str_views(u@) == nc && str_views(a@) == na)
        &&& post == pre
    } else {
        match pre.closure_list(names, pre.groups.len() as nat) {
            DescResult::Found(cl) => {
                &&& r is Ok
                &&& post == (ProjectView { active: drop_contained(pre.active, cl), ..pre })
            },
            DescResult::Missing(m) => (r matches Err(Error::NotFound(n)) && n@ == m) && post
                == pre,
            DescResult::Depth => r == Err::<(), Error>(Error::CycleDetected) && post == pre,
        }
    }
}

/// The unknown and the already-watched names among `names`, in order.
fn validate_select(project: &Project, names: &Vec<String>) -> (r: (Vec<String>, Vec<String>))
    ensures
        str_views(r.0@) == not_created(project@, str_views(names@)),
        str_views(r.1@) == already_active(project@, str_views(names@)),
{
    let mut undefined: Vec<String> = Vec::new();
    let mut already: Vec<String> = Vec::new();
    let n = names.len();
    proof {
        reveal(Seq::filter);
        assert(str_views(names@).take(0) =~= Seq::<Seq<char>>::empty());
        assert(str_views(undefined@) =~= not_created(project@, str_views(names@).take(0)));
        assert(str_views(already@) =~= already_active(project@, str_views(names@).take(0)));
    }
    for i in 0..n
        invariant
            n == names@.len(),
            str_views(undefined@) == not_created(project@, str_views(names@).take(i as int)),
            str_views(already@) == already_active(project@, str_views(names@).take(i as int)),
    {
        let ghost pre_u = str_views(undefined@);
        let ghost pre_a = str_views(already@);
        if !project.contains_group(&names[i]) {
            undefined.push(names[i].clone());
        } else if vec_contains_string(&project.active_groups, &names[i]) {
            already.push(names[i].clone());
        }
        proof {
            let nv = str_views(names@);
            assert(nv[i as int] == names@[i as int]@);
            assert(nv.take(i as int).push(nv[i as int]) =~= nv.take(i + 1));
            lemma_not_created_push(project@, nv.take(i as int), nv[i as int]);
            lemma_already_active_push(project@, nv.take(i as int), nv[i as int]);
            if !project@.has_group(nv[i as int]) {
                assert(str_views(undefined@) =~= pre_u + seq![nv[i as int]]);
                assert(str_views(already@) =~= pre_a + Seq::<Seq<char>>::empty());
            } else if project@.active.contains(nv[i as int]) {
                assert(str_views(undefined@) =~= pre_u + Seq::<Seq<char>>::empty());
                assert(str_views(already@) =~= pre_a + seq![nv[i as int]]);
            } else {
                assert(str_views(undefined@) =~= pre_u + Seq::<Seq<char>>::empty());
                assert(str_views(already@) =~= pre_a + Seq::<Seq<char>>::empty());
            }
        }
    }
    proof {
        assert(str_views(names@).take(n as int) =~= str_views(names@));
    }
    (undefined, already)
}

/// The unknown and the not-watched names among `names`, in order.
fn validate_deselect(project: &Project, names: &Vec<String>) -> (r: (Vec<String>, Vec<String>))
    ensures
        str_views(r.0@) == not_created(project@, str_views(names@)),
        str_views(r.1@) == inactive(project@, str_views(names@)),
{
    let mut undefined: Vec<String> = Vec::new();
    let mut unwatched: Vec<String> = Vec::new();
    let n = names.len();
    proof {
        reveal(Seq::filter);
        assert(str_views(names@).take(0) =~= Seq::<Seq<char>>::empty());
        assert(str_views(undefined@) =~= not_created(project@, str_views(names@).take(0)));
        assert(str_views(unwatched@) =~= inactive(project@, str_views(names@).take(0)));
    }
    for i in 0..n
        invariant
            n == names@.len(),
            str_views(undefined@) == not_created(project@, str_views(names@).take(i as int)),
            str_views(unwatched@) == inactive(project@, str_views(names@).take(i as int)),
    {
        let ghost pre_u = str_views(undefined@);
        let ghost pre_w = str_views(unwatched@);
        if !project.contains_group(&names[i]) {
            undefined.push(names[i].clone());
        } else if !vec_contains_string(&project.active_groups, &names[i]) {
            unwatched.push(names[i].clone());
        }
        proof {
            let nv = str_views(names@);
            assert(nv[i as int] == names@[i as int]@);
            assert(nv.take(i as int).push(nv[i as int]) =~= nv.take(i + 1));
            lemma_not_created_push(project@, nv.take(i as int), nv[i as int]);
            lemma_inactive_push(project@, nv.take(i as int), nv[i as int]);
            if !project@.has_group(nv[i as int]) {
                assert(str_views(undefined@) =~= pre_u + seq![nv[i as int]]);
                assert(str_views(unwatched@) =~= pre_w + Seq::<Seq<char>>::empty());
            } else if !project@.active.contains(nv[i as int]) {
                assert(str_views(undefined@) =~= pre_u + Seq::<Seq<char>>::empty());
                assert(str_views(unwatched@) =~= pre_w + seq![nv[i as int]]);
            } else {
                assert(str_views(undefined@) =~= pre_u + Seq::<Seq<char>>::empty());
                assert(str_views(unwatched@) =~= pre_w + Seq::<Seq<char>>::empty());
            }
        }
    }
    proof {
        assert(str_views(names@).take(n as int) =~= str_views(names@));
    }
    (undefined, unwatched)
}

/// Select every group of `names`, together with its descendant closure,
/// into the watch set.
pub(crate) fn select_into(project: &mut Project, names: &Vec<String>) -> (r: Result<(), Error>)
    ensures
        select_outcome(old(project)@, final(project)@, str_views(names@), r),
        old(project)@.wf() ==> final(project)@.wf(),
{
    let ghost pre = project@;
    if names.len() == 0 {
        proof {
            assert(str_views(names@).len() == 0);
        }
        return Err(Error::MissingArgument);
    }
    let (undefined, already) = validate_select(project, names);
    if undefined.len() > 0 || already.len() > 0 {
        return Err(Error::ValueValidation { not_created: undefined, invalid_state: already });
    }
    let to_select = match project.closure_walk(names, 0) {
        Ok(v) => v,
        Err(e) => {
            proof {
                assert(str_views(names@).skip(0) =~= str_views(names@));
            }
            return Err(e);
        },
    };
    proof {
        assert(str_views(names@).skip(0) =~= str_views(names@));
    }
    let ghost cl = str_views(to_select@);
    let merged = watch_union(&project.active_groups, &to_select);
    project.active_groups = merged;
    proof {
        assert(final(project)@ == (ProjectView { active: final(project)@.active, ..pre }));
        if pre.wf() {
            let post = final(project)@;
            lemma_strictly_sorted_no_duplicates(post.active);
            pre.lemma_closure_elements_exist(str_views(names@), pre.groups.len() as nat);
            assert forall|i: int| 0 <= i < post.active.len() implies post.has_group(
                #[trigger] post.active[i],
            ) by {
                assert(post.active.contains(post.active[i]));
                assert(post.active.to_set().contains(post.active[i]));
                if pre.active.to_set().contains(post.active[i]) {
                    let k = choose|k: int|
                        0 <= k < pre.active.len() && pre.active[k] == post.active[i];
                    assert(pre.has_group(pre.active[k]));
                } else {
                    assert(cl.to_set().contains(post.active[i]));
                    let k = choose|k: int| 0 <= k < cl.len() && cl[k] == post.active[i];
                }
            }
            assert(post.names() == pre.names());
            assert forall|i: int| 0 <= i < post.groups.len() implies post.children_ok(
                #[trigger] post.groups[i],
            ) by {
                assert(pre.children_ok(pre.groups[i]));
            }
        }
    }
    Ok(())
}

/// Remove every group of `names`, together with its descendant closure,
/// from the watch set.
pub(crate) fn deselect_from(project: &mut Project, names: &Vec<String>) -> (r: Result<(), Error>)
    ensures
        deselect_outcome(old(project)@, final(project)@, str_views(names@), r),
        old(project)@.wf() ==> final(project)@.wf(),
{
    let ghost pre = project@;
    if names.len() == 0 {
        proof {
            assert(str_views(names@).len() == 0);
        }
        return Err(Error::MissingArgument);
    }
    let (undefined, unwatched) = validate_deselect(project, names);
    if undefined.len() > 0 || unwatched.len() > 0 {
        return Err(Error::ValueValidation { not_created: undefined, invalid_state: unwatched });
    }
    let to_deselect = match project.closure_walk(names, 0) {
        Ok(v) => v,
        Err(e) => {
            proof {
                assert(str_views(names@).skip(0) =~= str_views(names@));
            }
            return Err(e);
        },
    };
    proof {
        assert(str_views(names@).skip(0) =~= str_views(names@));
    }
    let ghost cl = str_views(to_deselect@);
    let filtered = retain_absent(&project.active_groups, &to_deselect);
    project.active_groups = filtered;
    proof {
        assert(final(project)@ == (ProjectView { active: drop_contained(pre.active, cl), ..pre }));
        if pre.wf() {
            let post = final(project)@;
            lemma_drop_contained_props(pre.active, cl);
            assert forall|i: int| 0 <= i < post.active.len() implies post.has_group(
                #[trigger] post.active[i],
            ) by {
                assert(post.active.contains(post.active[i]));
                assert(pre.active.contains(post.active[i]));
                let k = choose|k: int|
                    0 <= k < pre.active.len() && pre.active[k] == post.active[i];
                assert(pre.has_group(pre.active[k]));
            }
            assert forall|i: int| 0 <= i < post.groups.len() implies post.children_ok(
                #[trigger] post.groups[i],
            ) by {
                assert(pre.children_ok(pre.groups[i]));
            }
        }
    }
    Ok(())
}

} // verus!
