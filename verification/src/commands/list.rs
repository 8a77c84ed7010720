use vstd::prelude::*;

use crate::data::{
    first_unknown, group_views, groups_of, str_views, DescResult, Group, Project, ProjectView,
    opt_view,
};
use crate::error::Error;

verus! {

/// Arguments of the list command: one group (with its subtree), or the
/// watched groups, or the whole store.
pub struct ListArgs {
    pub group_name: Option<String>,
    pub all: bool,
}

/// What the listing shows: a named group followed by its descendant
/// closure, else the watched groups, else (with `all`) every group.
pub open spec fn list_outcome(
    pv: ProjectView,
    name: Option<Seq<char>>,
    all: bool,
    r: Result<Vec<Group>, Error>,
) -> bool {
    if name is Some && !all {
        let nm = name->Some_0;
        if !pv.has_group(nm) {
            r matches Err(Error::InvalidValue(u)) && str_views(u@) == seq![nm]
        } else {
            match pv.desc(nm, pv.groups.len() as nat) {
                DescResult::Found(d) => r is Ok && group_views(r->Ok_0@) == seq![
                    pv.group_named(nm),
                ] + groups_of(pv, d),
                DescResult::Missing(m) => r matches Err(Error::NotFound(n)) && n@ == m,
                DescResult::Depth => r matches Err(Error::CycleDetected),
            }
        }
    } else if !all {
        if pv.active.len() == 0 {
            r matches Err(Error::IoError)
        } else if first_unknown(pv, pv.active) == pv.active.len() {
            r is Ok && group_views(r->Ok_0@) == groups_of(pv, pv.active)
        } else {
            r matches Err(Error::NotFound(n)) && n@ == pv.active[first_unknown(pv, pv.active)]
        }
    } else {
        if pv.groups.len() == 0 {
            r matches Err(Error::IoError)
        } else {
            r is Ok && group_views(r->Ok_0@) == pv.groups
        }
    }
}

impl ListArgs {
    /// The groups to list, in display order.
    ///
    /// With a group name, that group followed by its descendant closure
    /// (the name must exist); without `all`, the watched groups, an error
    /// when nothing is watched; with `all`, every group of the store, an
    /// error when there is none.
    pub fn apply(&self, project: &Project) -> (r: Result<Vec<Group>, Error>)
        ensures
            list_outcome(project@, opt_view(self.group_name), self.all, r),
    {
        let ghost pv = project@;
        match &self.group_name {
            Some(group_name) if !self.all => {
                if !project.contains_group(group_name) {
                    let mut unknown: Vec<String> = Vec::new();
                    unknown.push(group_name.clone());
                    proof {
                        assert(str_views(unknown@) =~= seq![group_name@]);
                    }
                    return Err(Error::InvalidValue(unknown));
                }
                let descendants = match project.get_group_descendants(group_name.as_str()) {
                    Ok(v) => v,
                    Err(e) => {
                        return Err(e);
                    },
                };
                let head = project.get_group(group_name.as_str());
                let ghost dv = str_views(descendants@);
                let mut out: Vec<Group> = Vec::new();
                out.push(head);
                let mut rest = match project.collect_groups(&descendants) {
                    Ok(v) => v,
                    Err(e) => {
                        proof {
                            pv.lemma_desc_children_exist(
                                pv.group_named(group_name@).children,
                                pv.groups.len() as nat,
                            );
                            crate::data::lemma_first_unknown(pv, dv);
                            let fu = first_unknown(pv, dv);
                            assert(pv.has_group(dv[fu]));
                            assert(false);
                        }
                        return Err(e);
                    },
                };
                out.append(&mut rest);
                proof {
                    let d = pv.desc(group_name@, pv.groups.len() as nat)->Found_0;
                    assert(group_views(out@) =~= seq![pv.group_named(group_name@)] + groups_of(
                        pv,
                        d,
                    ));
                }
                Ok(out)
            },
            _ => {
                if !self.all {
                    if project.active_groups.is_empty() {
                        return Err(Error::IoError);
                    }
                    project.collect_groups(&project.active_groups)
                } else {
                    if project.groups.is_empty() {
                        return Err(Error::IoError);
                    }
                    let n = project.groups.len();
                    let mut out: Vec<Group> = Vec::new();
                    proof {
                        assert(group_views(out@) =~= pv.groups.take(0));
                    }
                    for i in 0..n
                        invariant
                            n == project.groups@.len(),
                            pv == project@,
                            group_views(out@) == pv.groups.take(i as int),
                    {
                        let ghost pre = group_views(out@);
                        out.push(crate::data::clone_group(&project.groups[i]));
                        proof {
                            assert(pre.len() == i as int);
                            assert(out@.len() == i + 1);
                            assert(group_views(out@)[i as int] == pv.groups[i as int]);
                            assert(group_views(out@) =~= pv.groups.take(i + 1));
                        }
                    }
                    proof {
                        assert(pv.groups.take(n as int) =~= pv.groups);
                    }
                    Ok(out)
                }
            },
        }
    }
}

} // verus!
