use vstd::prelude::*;

use crate::data::{
    clone_strings, clone_tasks, clone_notes, lemma_first_name_idx, lemma_update_same_shape_wf,
    note_views, task_views, str_views, Group, GroupView, Note, Project, ProjectView, Task,
    TaskView,
};
use crate::error::Error;

verus! {

/// Common argument shape for removals: a group and the 1-based ids of the
/// entries to drop.
pub struct RemoveArgs {
    pub group_name: String,
    pub ids: Vec<usize>,
}

/// The remove subcommands.
pub enum RemoveCommands {
    Note(RemoveNoteArgs),
    Task(RemoveTaskArgs),
}

/// The remove command: one of its subcommands.
pub struct Remove {
    pub remove_commands: RemoveCommands,
}

/// Arguments for removing notes from a group.
pub struct RemoveNoteArgs {
    pub group_name: String,
    pub ids: Vec<usize>,
}

/// Arguments for removing tasks from a group.
pub struct RemoveTaskArgs {
    pub group_name: String,
    pub ids: Vec<usize>,
}

/// The ids lying outside `[1, len]`, in the order given.
pub open spec fn bad_ids(ids: Seq<usize>, len: nat) -> Seq<usize> {
    ids.filter(|id: usize| id < 1 || id > len)
}

/// Appending an id extends the out-of-range filter by at most that id.
pub proof fn lemma_bad_ids_push(ids: Seq<usize>, len: nat, x: usize)
    ensures
        bad_ids(ids.push(x), len) == bad_ids(ids, len) + if x < 1 || x > len {
            seq![x]
        } else {
            Seq::<usize>::empty()
        },
{
    reveal(Seq::filter);
    assert(ids.push(x).drop_last() =~= ids);
    assert(bad_ids(ids.push(x), len) =~= bad_ids(ids, len) + if x < 1 || x > len {
        seq![x]
    } else {
        Seq::<usize>::empty()
    });
}

/// The entries whose 1-based position is not listed in `ids`, in order.
///
/// Ids are resolved against the original numbering: listing an id twice
/// removes one entry, and the order of ids does not matter.
pub open spec fn drop_listed<A>(s: Seq<A>, ids: Seq<usize>) -> Seq<A>
    decreases s.len(),
{
    if s.len() == 0 {
        Seq::empty()
    } else {
        drop_listed(s.drop_last(), ids) + if ids.contains(s.len() as usize) {
            Seq::empty()
        } else {
            seq![s.last()]
        }
    }
}

/// Appending an entry extends the positional removal by at most that entry.
pub proof fn lemma_drop_listed_push<A>(s: Seq<A>, ids: Seq<usize>, x: A)
    ensures
        drop_listed(s.push(x), ids) == drop_listed(s, ids) + if ids.contains(
            (s.len() + 1) as usize,
        ) {
            Seq::<A>::empty()
        } else {
            seq![x]
        },
{
    assert(s.push(x).drop_last() =~= s);
    assert(s.push(x).len() as usize == (s.len() + 1) as usize);
    assert(drop_listed(s.push(x), ids) =~= drop_listed(s, ids) + if ids.contains(
        (s.len() + 1) as usize,
    ) {
        Seq::<A>::empty()
    } else {
        seq![x]
    });
}

/// Whether `x` occurs in `ids`.
pub(crate) fn ids_contain(ids: &Vec<usize>, x: usize) -> (b: bool)
    ensures
        b == ids@.contains(x),
{
    let n = ids.len();
    for i in 0..n
        invariant
            n == ids@.len(),
            forall|j: int| 0 <= j < i ==> ids@[j] != x,
    {
        if ids[i] == x {
            return true;
        }
    }
    proof {
        if ids@.contains(x) {
            let k = choose|k: int| 0 <= k < ids@.len() && ids@[k] == x;
            assert(false);
        }
    }
    false
}

/// The ids of `ids` lying outside `[1, len]`, in order.
pub(crate) fn collect_bad_ids(ids: &Vec<usize>, len: usize) -> (r: Vec<usize>)
    ensures
        r@ == bad_ids(ids@, len as nat),
{
    let mut r: Vec<usize> = Vec::new();
    let n = ids.len();
    proof {
        reveal(Seq::filter);
        assert(ids@.take(0) =~= Seq::<usize>::empty());
        assert(r@ =~= bad_ids(ids@.take(0), len as nat));
    }
    for i in 0..n
        invariant
            n == ids@.len(),
            r@ == bad_ids(ids@.take(i as int), len as nat),
    {
        let ghost pre = r@;
        let id = ids[i];
        if id < 1 || id > len {
            r.push(id);
        }
        proof {
            assert(ids@.take(i as int).push(ids@[i as int]) =~= ids@.take(i + 1));
            lemma_bad_ids_push(ids@.take(i as int), len as nat, ids@[i as int]);
            if id < 1 || id > len {
                assert(r@ =~= pre + seq![ids@[i as int]]);
            } else {
                assert(r@ =~= pre + Seq::<usize>::empty());
            }
        }
    }
    proof {
        assert(ids@.take(n as int) =~= ids@);
    }
    r
}

/// What removing entries from a group does: existence, non-emptiness and
/// range checks in that order, all ids checked before anything is removed,
/// then the group keeps exactly the entries whose original 1-based position
/// was not listed.
pub open spec fn remove_outcome(
    pre: ProjectView,
    post: ProjectView,
    name: Seq<char>,
    ids: Seq<usize>,
    from_notes: bool,
    r: Result<(), Error>,
) -> bool {
    if !pre.has_group(name) {
        (r matches Err(Error::NotFound(n)) && n@ == name) && post == pre
    } else if ids.len() == 0 {
        r == Err::<(), Error>(Error::MissingArgument) && post == pre
    } else {
        let g = pre.group_named(name);
        let len = if from_notes {
            g.notes.len()
        } else {
            g.tasks.len()
        };
        let bad = bad_ids(ids, len);
        if bad.len() > 0 {
            (r matches Err(Error::InvalidIds(b)) && b@ == bad) && post == pre
        } else {
            let g2 = if from_notes {
                GroupView { notes: drop_listed(g.notes, ids), ..g }
            } else {
                GroupView { tasks: drop_listed(g.tasks, ids), ..g }
            };
            r is Ok && post == (ProjectView {
                groups: pre.groups.update(pre.idx_of(name), g2),
                ..pre
            })
        }
    }
}

/// The notes of `v` whose 1-based position is not listed in `ids`.
fn remove_listed_notes(v: &Vec<Note>, ids: &Vec<usize>) -> (r: Vec<Note>)
    ensures
        note_views(r@) == drop_listed(note_views(v@), ids@),
{
    let mut r: Vec<Note> = Vec::new();
    let n = v.len();
    proof {
        assert(note_views(v@).take(0) =~= Seq::<Seq<char>>::empty());
        assert(note_views(r@) =~= drop_listed(note_views(v@).take(0), ids@));
    }
    for j in 0..n
        invariant
            n == v@.len(),
            note_views(r@) == drop_listed(note_views(v@).take(j as int), ids@),
    {
        let ghost pre = note_views(r@);
        if !ids_contain(ids, j + 1) {
            r.push(Note { note: v[j].note.clone() });
        }
        proof {
            let vv = note_views(v@);
            assert(vv[j as int] == v@[j as int]@);
            assert(vv.take(j as int).push(vv[j as int]) =~= vv.take(j + 1));
            lemma_drop_listed_push(vv.take(j as int), ids@, vv[j as int]);
            assert((j + 1) as usize == (vv.take(j as int).len() + 1) as usize);
            if ids@.contains((j + 1) as usize) {
                assert(note_views(r@) =~= pre + Seq::<Seq<char>>::empty());
            } else {
                assert(note_views(r@) =~= pre + seq![vv[j as int]]);
            }
        }
    }
    proof {
        assert(note_views(v@).take(n as int) =~= note_views(v@));
    }
    r
}

/// The tasks of `v` whose 1-based position is not listed in `ids`.
fn remove_listed_tasks(v: &Vec<Task>, ids: &Vec<usize>) -> (r: Vec<Task>)
    ensures
        task_views(r@) == drop_listed(task_views(v@), ids@),
{
    let mut r: Vec<Task> = Vec::new();
    let n = v.len();
    proof {
        assert(task_views(v@).take(0) =~= Seq::<TaskView>::empty());
        assert(task_views(r@) =~= drop_listed(task_views(v@).take(0), ids@));
    }
    for j in 0..n
        invariant
            n == v@.len(),
            task_views(r@) == drop_listed(task_views(v@).take(j as int), ids@),
    {
        let ghost pre = task_views(r@);
        if !ids_contain(ids, j + 1) {
            r.push(Task { task: v[j].task.clone(), state: v[j].state });
        }
        proof {
            let vv = task_views(v@);
            assert(vv[j as int] == v@[j as int]@);
            assert(vv.take(j as int).push(vv[j as int]) =~= vv.take(j + 1));
            lemma_drop_listed_push(vv.take(j as int), ids@, vv[j as int]);
            assert((j + 1) as usize == (vv.take(j as int).len() + 1) as usize);
            if ids@.contains((j + 1) as usize) {
                assert(task_views(r@) =~= pre + Seq::<TaskView>::empty());
            } else {
                assert(task_views(r@) =~= pre + seq![vv[j as int]]);
            }
        }
    }
    proof {
        assert(task_views(v@).take(n as int) =~= task_views(v@));
    }
    r
}

impl RemoveNoteArgs {
    /// Remove the listed notes from the group, resolving every id against
    /// the numbering at the time of the call.
    ///
    /// Fails with [`Error::NotFound`], [`Error::MissingArgument`] or
    /// [`Error::InvalidIds`] (listing every offending id, checked before
    /// any removal); a failed call leaves the store untouched.
    pub fn apply(&self, project: &mut Project) -> (r: Result<(), Error>)
        ensures
            remove_outcome(
                old(project)@,
                final(project)@,
                self.group_name@,
                self.ids@,
                true,
                r,
            ),
            old(project)@.wf() ==> final(project)@.wf(),
    {
        let ghost pre = project@;
        let idx = match project.find_group(&self.group_name) {
            None => {
                return Err(Error::NotFound(self.group_name.clone()));
            },
            Some(i) => i,
        };
        proof {
            lemma_first_name_idx(pre.names(), self.group_name@);
        }
        if self.ids.is_empty() {
            return Err(Error::MissingArgument);
        }
        let bad = collect_bad_ids(&self.ids, project.groups[idx].notes.len());
        if bad.len() > 0 {
            return Err(Error::InvalidIds(bad));
        }
        let g = &project.groups[idx];
        let new_group = Group {
            name: g.name.clone(),
            notes: remove_listed_notes(&g.notes, &self.ids),
            tasks: clone_tasks(&g.tasks),
            groups: clone_strings(&g.groups),
        };
        let ghost gv = new_group@;
        project.replace_group(idx, new_group);
        proof {
            assert(pre.group_named(self.group_name@) == pre.groups[idx as int]);
            assert(gv =~= (GroupView {
                notes: drop_listed(pre.groups[idx as int].notes, self.ids@),
                ..pre.groups[idx as int]
            }));
            if pre.wf() {
                lemma_update_same_shape_wf(pre, idx as int, gv);
            }
        }
        Ok(())
    }
}

impl RemoveTaskArgs {
    /// Remove the listed tasks from the group, resolving every id against
    /// the numbering at the time of the call.
    ///
    /// Fails with [`Error::NotFound`], [`Error::MissingArgument`] or
    /// [`Error::InvalidIds`] (listing every offending id, checked before
    /// any removal); a failed call leaves the store untouched.
    pub fn apply(&self, project: &mut Project) -> (r: Result<(), Error>)
        ensures
            remove_outcome(
                old(project)@,
                final(project)@,
                self.group_name@,
                self.ids@,
                false,
                r,
            ),
            old(project)@.wf() ==> final(project)@.wf(),
    {
        let ghost pre = project@;
        let idx = match project.find_group(&self.group_name) {
            None => {
                return Err(Error::NotFound(self.group_name.clone()));
            },
            Some(i) => i,
        };
        proof {
            lemma_first_name_idx(pre.names(), self.group_name@);
        }
        if self.ids.is_empty() {
            return Err(Error::MissingArgument);
        }
        let bad = collect_bad_ids(&self.ids, project.groups[idx].tasks.len());
        if bad.len() > 0 {
            return Err(Error::InvalidIds(bad));
        }
        let g = &project.groups[idx];
        let new_group = Group {
            name: g.name.clone(),
            notes: clone_notes(&g.notes),
            tasks: remove_listed_tasks(&g.tasks, &self.ids),
            groups: clone_strings(&g.groups),
        };
        let ghost gv = new_group@;
        project.replace_group(idx, new_group);
        proof {
            assert(pre.group_named(self.group_name@) == pre.groups[idx as int]);
            assert(gv =~= (GroupView {
                tasks: drop_listed(pre.groups[idx as int].tasks, self.ids@),
                ..pre.groups[idx as int]
            }));
            if pre.wf() {
                lemma_update_same_shape_wf(pre, idx as int, gv);
            }
        }
        Ok(())
    }
}

} // verus!
