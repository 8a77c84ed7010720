use vstd::prelude::*;

use crate::data::{
    clone_notes, clone_strings, first_unknown, group_views, groups_of, lemma_first_name_idx,
    lemma_update_same_shape_wf, opt_view, str_views, task_views, DescResult, Group, GroupView,
    Project, ProjectView, TaskState, TaskView,
};
use crate::commands::remove::{bad_ids, collect_bad_ids, ids_contain};
use crate::error::Error;

verus! {

/// Common argument shape for task-state changes.
pub struct TaskArgs {
    pub subcommand: Subcommands,
    pub group_name: String,
    pub ids: Vec<usize>,
}

/// The task subcommand selector.
pub enum Subcommands {
    Complete,
    Undo,
    Progress,
}

/// The task command: one of its subcommands.
pub enum TaskCommands {
    Complete(TaskCompleteArgs),
    Undo(TaskUndoArgs),
    Progress(TaskProgressArgs),
}

/// The task command wrapper.
pub struct Task {
    pub task_commands: TaskCommands,
}

/// Arguments for marking tasks complete.
pub struct TaskCompleteArgs {
    pub group_name: String,
    pub ids: Vec<usize>,
}

/// Arguments for marking tasks incomplete again.
pub struct TaskUndoArgs {
    pub group_name: String,
    pub ids: Vec<usize>,
}

/// Arguments for the progress view.
pub struct TaskProgressArgs {
    pub group_name: Option<String>,
    pub all: bool,
}

/// The tasks with the listed 1-based positions set to `st`; the others
/// unchanged.
pub open spec fn set_listed(tasks: Seq<TaskView>, ids: Seq<usize>, st: TaskState) -> Seq<TaskView> {
    tasks.map(
        |j: int, t: TaskView| if ids.contains((j + 1) as usize) {
            TaskView { state: st, ..t }
        } else {
            t
        },
    )
}

/// Setting task states is idempotent: repeating the same call changes
/// nothing further.
pub proof fn lemma_set_listed_idempotent(tasks: Seq<TaskView>, ids: Seq<usize>, st: TaskState)
    ensures
        set_listed(set_listed(tasks, ids, st), ids, st) == set_listed(tasks, ids, st),
{
    assert(set_listed(set_listed(tasks, ids, st), ids, st) =~= set_listed(tasks, ids, st));
}

/// A call that only addresses tasks already in the target state leaves the
/// task list unchanged.
pub proof fn lemma_set_listed_noop(tasks: Seq<TaskView>, ids: Seq<usize>, st: TaskState)
    requires
        forall|j: int|
            0 <= j < tasks.len() && ids.contains((j + 1) as usize) ==> (#[trigger] tasks[j]).state
                == st,
    ensures
        set_listed(tasks, ids, st) == tasks,
{
    assert(set_listed(tasks, ids, st) =~= tasks);
}

/// Repeating a successful task-state command is a no-op: the second call
/// succeeds and changes nothing, in particular setting tasks complete that
/// are already complete.
pub proof fn lemma_task_state_idempotent(
    pre: ProjectView,
    post1: ProjectView,
    post2: ProjectView,
    name: Seq<char>,
    ids: Seq<usize>,
    st: TaskState,
    r1: Result<(), Error>,
    r2: Result<(), Error>,
)
    requires
        task_state_outcome(pre, post1, name, ids, st, r1),
        r1 is Ok,
        task_state_outcome(post1, post2, name, ids, st, r2),
    ensures
        r2 is Ok,
        post2 == post1,
{
    lemma_first_name_idx(pre.names(), name);
    let idx = pre.idx_of(name);
    let g = pre.group_named(name);
    let g2 = GroupView { tasks: set_listed(g.tasks, ids, st), ..g };
    assert(post1.groups == pre.groups.update(idx, g2));
    assert(post1.names() =~= pre.names());
    assert(post1.has_group(name));
    assert(post1.idx_of(name) == idx);
    assert(post1.group_named(name) == g2);
    assert(g2.tasks.len() == g.tasks.len());
    assert(bad_ids(ids, g2.tasks.len()) == bad_ids(ids, g.tasks.len()));
    lemma_set_listed_idempotent(g.tasks, ids, st);
    assert(post2.groups =~= post1.groups) by {
        assert(post2.groups == post1.groups.update(idx, GroupView { tasks: set_listed(g2.tasks, ids, st), ..g2 }));
        assert(set_listed(g2.tasks, ids, st) == g2.tasks);
    }
    assert(post2 =~= post1);
}

/// What a task-state command does: existence, non-emptiness and range
/// checks in that order, all ids checked before any change, then every
/// addressed task carries the target state and every other task is
/// untouched.
pub open spec fn task_state_outcome(
    pre: ProjectView,
    post: ProjectView,
    name: Seq<char>,
    ids: Seq<usize>,
    st: TaskState,
    r: Result<(), Error>,
) -> bool {
    if !pre.has_group(name) {
        (r matches Err(Error::NotFound(n)) && n@ == name) && post == pre
    } else if ids.len() == 0 {
        r == Err::<(), Error>(Error::MissingArgument) && post == pre
    } else {
        let g = pre.group_named(name);
        let bad = bad_ids(ids, g.tasks.len());
        if bad.len() > 0 {
            (r matches Err(Error::InvalidIds(b)) && b@ == bad) && post == pre
        } else {
            r is Ok && post == (ProjectView {
                groups: pre.groups.update(
                    pre.idx_of(name),
                    GroupView { tasks: set_listed(g.tasks, ids, st), ..g },
                ),
                ..pre
            })
        }
    }
}

/// A copy of `v` with the listed 1-based positions set to `st`.
fn set_listed_tasks(v: &Vec<crate::data::Task>, ids: &Vec<usize>, st: TaskState) -> (r: Vec<
    crate::data::Task,
>)
    ensures
        task_views(r@) == set_listed(task_views(v@), ids@, st),
{
    let mut r: Vec<crate::data::Task> = Vec::new();
    let n = v.len();
    for j in 0..n
        invariant
            n == v@.len(),
            r@.len() == j,
            forall|k: int|
                0 <= k < j ==> task_views(r@)[k] == set_listed(task_views(v@), ids@, st)[k],
    {
        let ghost pre = task_views(r@);
        let listed = ids_contain(ids, j + 1);
        let state = if listed {
            st
        } else {
            v[j].state
        };
        r.push(crate::data::Task { task: v[j].task.clone(), state });
        proof {
            assert(task_views(v@)[j as int] == v@[j as int]@);
            assert(task_views(r@)[j as int] == set_listed(task_views(v@), ids@, st)[j as int]);
            assert forall|k: int| 0 <= k < j implies task_views(r@)[k] == set_listed(
                task_views(v@),
                ids@,
                st,
            )[k] by {
                assert(task_views(r@)[k] == pre[k]);
            }
        }
    }
    proof {
        assert(task_views(r@) =~= set_listed(task_views(v@), ids@, st));
    }
    r
}

/// The full effect of a task-state command on the store.
fn set_task_states(
    project: &mut Project,
    group_name: &String,
    ids: &Vec<usize>,
    st: TaskState,
) -> (r: Result<(), Error>)
    ensures
        task_state_outcome(old(project)@, final(project)@, group_name@, ids@, st, r),
        old(project)@.wf() ==> final(project)@.wf(),
{
    let ghost pre = project@;
    let idx = match project.find_group(group_name) {
        None => {
            return Err(Error::NotFound(group_name.clone()));
        },
        Some(i) => i,
    };
    proof {
        lemma_first_name_idx(pre.names(), group_name@);
    }
    if ids.is_empty() {
        return Err(Error::MissingArgument);
    }
    let bad = collect_bad_ids(ids, project.groups[idx].tasks.len());
    if bad.len() > 0 {
        return Err(Error::InvalidIds(bad));
    }
    let g = &project.groups[idx];
    let new_group = Group {
        name: g.name.clone(),
        notes: clone_notes(&g.notes),
        tasks: set_listed_tasks(&g.tasks, ids, st),
        groups: clone_strings(&g.groups),
    };
    let ghost gv = new_group@;
    project.replace_group(idx, new_group);
    proof {
        assert(pre.group_named(group_name@) == pre.groups[idx as int]);
        assert(gv =~= (GroupView {
            tasks: set_listed(pre.groups[idx as int].tasks, ids@, st),
            ..pre.groups[idx as int]
        }));
        if pre.wf() {
            lemma_update_same_shape_wf(pre, idx as int, gv);
        }
    }
    Ok(())
}

impl TaskCompleteArgs {
    /// Mark the listed tasks of the group complete.  Idempotent on tasks
    /// already complete; a failed call leaves the store untouched.
    pub fn apply(&self, project: &mut Project) -> (r: Result<(), Error>)
        ensures
            task_state_outcome(
                old(project)@,
                final(project)@,
                self.group_name@,
                self.ids@,
                TaskState::Complete,
                r,
            ),
            old(project)@.wf() ==> final(project)@.wf(),
    {
        set_task_states(project, &self.group_name, &self.ids, TaskState::Complete)
    }
}

impl TaskUndoArgs {
    /// Mark the listed tasks of the group incomplete again.  Idempotent on
    /// tasks already incomplete; a failed call leaves the store untouched.
    pub fn apply(&self, project: &mut Project) -> (r: Result<(), Error>)
        ensures
            task_state_outcome(
                old(project)@,
                final(project)@,
                self.group_name@,
                self.ids@,
                TaskState::Incomplete,
                r,
            ),
            old(project)@.wf() ==> final(project)@.wf(),
    {
        set_task_states(project, &self.group_name, &self.ids, TaskState::Incomplete)
    }
}

/// What the progress view shows: all groups, a named group with its
/// descendants, or the watched groups, in that order of precedence.
pub open spec fn progress_outcome(
    pv: ProjectView,
    name: Option<Seq<char>>,
    all: bool,
    r: Result<Vec<Group>, Error>,
) -> bool {
    if all {
        r is Ok && group_views(r->Ok_0@) == pv.groups
    } else if name is Some {
        let nm = name->Some_0;
        match pv.desc(nm, pv.groups.len() as nat) {
            DescResult::Found(d) => r is Ok && group_views(r->Ok_0@) == seq![
                pv.group_named(nm),
            ] + groups_of(pv, d),
            DescResult::Missing(m) => r matches Err(Error::NotFound(n)) && n@ == m,
            DescResult::Depth => r matches Err(Error::CycleDetected),
        }
    } else if pv.active.len() > 0 {
        if first_unknown(pv, pv.active) == pv.active.len() {
            r is Ok && group_views(r->Ok_0@) == groups_of(pv, pv.active)
        } else {
            r matches Err(Error::NotFound(n)) && n@ == pv.active[first_unknown(pv, pv.active)]
        }
    } else {
        r matches Err(Error::IoError)
    }
}

impl TaskProgressArgs {
    /// The groups whose progress is to be shown, in display order.
    ///
    /// With `all` set, every group of the store; with a group name, that
    /// group followed by its descendant closure; otherwise the watched
    /// groups, an error when nothing is watched.
    pub fn apply(&self, project: &Project) -> (r: Result<Vec<Group>, Error>)
        ensures
            progress_outcome(project@, opt_view(self.group_name), self.all, r),
    {
        let ghost pv = project@;
        if self.all {
            let n = project.groups.len();
            let mut out: Vec<Group> = Vec::new();
            proof {
                assert(group_views(out@) =~= pv.groups.take(0));
            }
            for i in 0..n
                invariant
                    n == project.groups@.len(),
                    pv == project@,
                    group_views(out@) == pv.groups.take(i as int),
            {
                let ghost pre = group_views(out@);
                out.push(crate::data::clone_group(&project.groups[i]));
                proof {
                    assert(pre.len() == i as int);
                    assert(out@.len() == i + 1);
                    assert(group_views(out@)[i as int] == pv.groups[i as int]);
                    assert(group_views(out@) =~= pv.groups.take(i + 1));
                }
            }
            proof {
                assert(pv.groups.take(n as int) =~= pv.groups);
            }
            Ok(out)
        } else {
            match &self.group_name {
                Some(group_name) => {
                    let mut descendants = match project.get_group_descendants(
                        group_name.as_str(),
                    ) {
                        Ok(v) => v,
                        Err(e) => {
                            return Err(e);
                        },
                    };
                    let head = project.get_group(group_name.as_str());
                    let mut out: Vec<Group> = Vec::new();
                    let ghost dv = str_views(descendants@);
                    out.push(head);
                    let rest = match project.collect_groups(&descendants) {
                        Ok(v) => v,
                        Err(e) => {
                            proof {
                                pv.lemma_desc_children_exist(
                                    pv.group_named(group_name@).children,
                                    pv.groups.len() as nat,
                                );
                                crate::data::lemma_first_unknown(pv, dv);
                                let fu = first_unknown(pv, dv);
                                assert(pv.has_group(dv[fu]));
                                assert(false);
                            }
                            return Err(e);
                        },
                    };
                    let mut rest = rest;
                    out.append(&mut rest);
                    proof {
                        let d = pv.desc(group_name@, pv.groups.len() as nat)->Found_0;
                        assert(group_views(out@) =~= seq![pv.group_named(group_name@)]
                            + groups_of(pv, d));
                    }
                    Ok(out)
                },
                None => {
                    if project.active_groups.len() > 0 {
                        project.collect_groups(&project.active_groups)
                    } else {
                        Err(Error::IoError)
                    }
                },
            }
        }
    }
}

/// The tasks marked complete, in order.
pub open spec fn finished_of(tasks: Seq<TaskView>) -> Seq<TaskView> {
    tasks.filter(|t: TaskView| t.state == TaskState::Complete)
}

/// The tasks not yet complete, in order.
pub open spec fn unfinished_of(tasks: Seq<TaskView>) -> Seq<TaskView> {
    tasks.filter(|t: TaskView| t.state == TaskState::Incomplete)
}

/// Appending a task extends the finished filter by at most that task.
proof fn lemma_finished_push(tasks: Seq<TaskView>, x: TaskView)
    ensures
        finished_of(tasks.push(x)) == finished_of(tasks) + if x.state == TaskState::Complete {
            seq![x]
        } else {
            Seq::<TaskView>::empty()
        },
{
    reveal(Seq::filter);
    assert(tasks.push(x).drop_last() =~= tasks);
    assert(finished_of(tasks.push(x)) =~= finished_of(tasks) + if x.state
        == TaskState::Complete {
        seq![x]
    } else {
        Seq::<TaskView>::empty()
    });
}

/// Appending a task extends the unfinished filter by at most that task.
proof fn lemma_unfinished_push(tasks: Seq<TaskView>, x: TaskView)
    ensures
        unfinished_of(tasks.push(x)) == unfinished_of(tasks) + if x.state
            == TaskState::Incomplete {
            seq![x]
        } else {
            Seq::<TaskView>::empty()
        },
{
    reveal(Seq::filter);
    assert(tasks.push(x).drop_last() =~= tasks);
    assert(unfinished_of(tasks.push(x)) =~= unfinished_of(tasks) + if x.state
        == TaskState::Incomplete {
        seq![x]
    } else {
        Seq::<TaskView>::empty()
    });
}

impl Group {
    /// The tasks of this group already marked complete, in order.
    pub fn finished_tasks(&self) -> (r: Vec<crate::data::Task>)
        ensures
            task_views(r@) == finished_of(task_views(self.tasks@)),
    {
        let mut r: Vec<crate::data::Task> = Vec::new();
        let n = self.tasks.len();
        proof {
            reveal(Seq::filter);
            assert(task_views(self.tasks@).take(0) =~= Seq::<TaskView>::empty());
            assert(task_views(r@) =~= finished_of(task_views(self.tasks@).take(0)));
        }
        for j in 0..n
            invariant
                n == self.tasks@.len(),
                task_views(r@) == finished_of(task_views(self.tasks@).take(j as int)),
        {
            let ghost pre = task_views(r@);
            let is_complete = match self.tasks[j].state {
                TaskState::Complete => true,
                TaskState::Incomplete => false,
            };
            if is_complete {
                r.push(crate::data::Task { task: self.tasks[j].task.clone(), state: self.tasks[j].state });
            }
            proof {
                let vv = task_views(self.tasks@);
                assert(vv[j as int] == self.tasks@[j as int]@);
                assert(vv.take(j as int).push(vv[j as int]) =~= vv.take(j + 1));
                lemma_finished_push(vv.take(j as int), vv[j as int]);
                if vv[j as int].state == TaskState::Complete {
                    assert(task_views(r@) =~= pre + seq![vv[j as int]]);
                } else {
                    assert(task_views(r@) =~= pre + Seq::<TaskView>::empty());
                }
            }
        }
        proof {
            assert(task_views(self.tasks@).take(n as int) =~= task_views(self.tasks@));
        }
        r
    }

    /// The tasks of this group not yet complete, in order.
    pub fn unfinished_tasks(&self) -> (r: Vec<crate::data::Task>)
        ensures
            task_views(r@) == unfinished_of(task_views(self.tasks@)),
    {
        let mut r: Vec<crate::data::Task> = Vec::new();
        let n = self.tasks.len();
        proof {
            reveal(Seq::filter);
            assert(task_views(self.tasks@).take(0) =~= Seq::<TaskView>::empty());
            assert(task_views(r@) =~= unfinished_of(task_views(self.tasks@).take(0)));
        }
        for j in 0..n
            invariant
                n == self.tasks@.len(),
                task_views(r@) == unfinished_of(task_views(self.tasks@).take(j as int)),
        {
            let ghost pre = task_views(r@);
            let is_complete = match self.tasks[j].state {
                TaskState::Complete => true,
                TaskState::Incomplete => false,
            };
            if !is_complete {
                r.push(crate::data::Task { task: self.tasks[j].task.clone(), state: self.tasks[j].state });
            }
            proof {
                let vv = task_views(self.tasks@);
                assert(vv[j as int] == self.tasks@[j as int]@);
                assert(vv.take(j as int).push(vv[j as int]) =~= vv.take(j + 1));
                lemma_unfinished_push(vv.take(j as int), vv[j as int]);
                if vv[j as int].state == TaskState::Incomplete {
                    assert(task_views(r@) =~= pre + seq![vv[j as int]]);
                } else {
                    assert(task_views(r@) =~= pre + Seq::<TaskView>::empty());
                }
            }
        }
        proof {
            assert(task_views(self.tasks@).take(n as int) =~= task_views(self.tasks@));
        }
        r
    }

    /// The whole-number percentage of complete tasks, zero for a group
    /// without tasks.
    pub fn progress_percentage(&self) -> (p: usize)
        ensures
            self.tasks@.len() == 0 ==> p == 0,
            self.tasks@.len() > 0 ==> p as int == (finished_of(task_views(self.tasks@)).len()
                as int) * 100 / (task_views(self.tasks@).len() as int),
    {
        let total = self.tasks.len();
        if total == 0 {
            return 0;
        }
        let finished = self.finished_tasks();
        let fin = finished.len();
        proof {
            broadcast use vstd::seq_lib::group_filter_ensures;

            assert(finished_of(task_views(self.tasks@)).len() <= task_views(self.tasks@).len());
        }
        let p128 = (fin as u128) * 100 / (total as u128);
        proof {
            let f = fin as int;
            let t = total as int;
            assert(0 <= f * 100 / t <= 100) by (nonlinear_arith)
                requires
                    0 < t,
                    f <= t,
                    0 <= f,
            {}
            assert(p128 as int == f * 100 / t);
        }
        p128 as usize
    }
}

} // verus!
