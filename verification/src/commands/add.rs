use vstd::prelude::*;

use crate::data::{
    clone_strings, clone_tasks, clone_notes, lemma_first_name_idx, lemma_update_same_shape_wf,
    str_views, Group, GroupView, Note, Project, ProjectView, TaskState, TaskView,
};
use crate::error::Error;

verus! {

/// The add subcommands.
pub enum AddCommands {
    Note(AddNoteArgs),
    Task(AddTaskArgs),
}

/// The add command: one of its subcommands.
pub struct Add {
    pub add_commands: AddCommands,
}

/// Arguments for adding a note: the group and the words of the text.
pub struct AddNoteArgs {
    pub group_name: String,
    pub text: Vec<String>,
}

/// Arguments for adding a task: the group and the words of the text.
pub struct AddTaskArgs {
    pub group_name: String,
    pub text: Vec<String>,
}

/// The words of `parts` joined with single spaces.
pub open spec fn join_spaced(parts: Seq<Seq<char>>) -> Seq<char>
    decreases parts.len(),
{
    if parts.len() == 0 {
        Seq::empty()
    } else if parts.len() == 1 {
        parts[0]
    } else {
        join_spaced(parts.drop_last()) + seq![' '] + parts.last()
    }
}

/// The words of `parts` joined with single spaces.
pub fn join_with_spaces(parts: &Vec<String>) -> (r: String)
    ensures
        r@ == join_spaced(str_views(parts@)),
{
    let mut r = String::new();
    let n = parts.len();
    proof {
        reveal_strlit(" ");
        assert(str_views(parts@).take(0) =~= Seq::<Seq<char>>::empty());
        assert(r@ =~= join_spaced(str_views(parts@).take(0)));
    }
    for i in 0..n
        invariant
            n == parts@.len(),
            r@ == join_spaced(str_views(parts@).take(i as int)),
    {
        let ghost pre = r@;
        if i > 0 {
            r.append(" ");
        }
        r.append(parts[i].as_str());
        proof {
            reveal_strlit(" ");
            let vv = str_views(parts@);
            assert(vv[i as int] == parts@[i as int]@);
            assert(vv.take(i + 1).drop_last() =~= vv.take(i as int));
            assert(vv.take(i + 1).last() == vv[i as int]);
            if i == 0 {
                assert(r@ =~= vv[0]);
                assert(join_spaced(vv.take(1)) == vv.take(1)[0]);
                assert(vv.take(1)[0] == vv[0]);
            } else {
                assert(" "@ =~= seq![' ']);
                assert(r@ =~= pre + seq![' '] + vv[i as int]);
                assert(join_spaced(vv.take(i + 1)) == join_spaced(vv.take(i as int)) + seq![' ']
                    + vv[i as int]);
            }
        }
    }
    proof {
        assert(str_views(parts@).take(n as int) =~= str_views(parts@));
    }
    r
}

/// What adding an entry to a group does: the group must exist and the text
/// must not be empty; the new entry's text is the words joined by spaces,
/// appended at the end.
pub open spec fn add_outcome(
    pre: ProjectView,
    post: ProjectView,
    name: Seq<char>,
    text: Seq<Seq<char>>,
    as_note: bool,
    r: Result<(), Error>,
) -> bool {
    if !pre.has_group(name) {
        (r matches Err(Error::NotFound(n)) && n@ == name) && post == pre
    } else if text.len() == 0 {
        r == Err::<(), Error>(Error::MissingArgument) && post == pre
    } else {
        let g = pre.group_named(name);
        let g2 = if as_note {
            GroupView { notes: g.notes.push(join_spaced(text)), ..g }
        } else {
            GroupView {
                tasks: g.tasks.push(
                    TaskView { text: join_spaced(text), state: TaskState::Incomplete },
                ),
                ..g
            }
        };
        r is Ok && post == (ProjectView {
            groups: pre.groups.update(pre.idx_of(name), g2),
            ..pre
        })
    }
}

/// Append either a note or a task holding the joined text.
fn add_entry(project: &mut Project, group_name: &String, text: &Vec<String>, as_note: bool) -> (r:
    Result<(), Error>)
    ensures
        add_outcome(old(project)@, final(project)@, group_name@, str_views(text@), as_note, r),
        old(project)@.wf() ==> final(project)@.wf(),
{
    let ghost pre = project@;
    let idx = match project.find_group(group_name) {
        None => {
            return Err(Error::NotFound(group_name.clone()));
        },
        Some(i) => i,
    };
    proof {
        lemma_first_name_idx(pre.names(), group_name@);
    }
    if text.is_empty() {
        proof {
            assert(str_views(text@).len() == 0);
        }
        return Err(Error::MissingArgument);
    }
    let joined = join_with_spaces(text);
    let g = &project.groups[idx];
    let new_group = if as_note {
        let mut notes = clone_notes(&g.notes);
        notes.push(Note { note: joined });
        Group {
            name: g.name.clone(),
            notes,
            tasks: clone_tasks(&g.tasks),
            groups: clone_strings(&g.groups),
        }
    } else {
        let mut tasks = clone_tasks(&g.tasks);
        tasks.push(crate::data::Task { task: joined, state: TaskState::Incomplete });
        Group {
            name: g.name.clone(),
            notes: clone_notes(&g.notes),
            tasks,
            groups: clone_strings(&g.groups),
        }
    };
    let ghost gv = new_group@;
    project.replace_group(idx, new_group);
    proof {
        assert(pre.group_named(group_name@) == pre.groups[idx as int]);
        let g0 = pre.groups[idx as int];
        if as_note {
            assert(gv =~= (GroupView {
                notes: g0.notes.push(join_spaced(str_views(text@))),
                ..g0
            }));
        } else {
            assert(gv =~= (GroupView {
                tasks: g0.tasks.push(
                    TaskView { text: join_spaced(str_views(text@)), state: TaskState::Incomplete },
                ),
                ..g0
            }));
        }
        if pre.wf() {
            lemma_update_same_shape_wf(pre, idx as int, gv);
        }
    }
    Ok(())
}

impl AddNoteArgs {
    /// Append a note holding the space-joined text to the group.
    ///
    /// Fails with [`Error::NotFound`] for an unknown group and with
    /// [`Error::MissingArgument`] for empty text; a failed call leaves the
    /// store untouched.
    pub fn apply(&self, project: &mut Project) -> (r: Result<(), Error>)
        ensures
            add_outcome(
                old(project)@,
                final(project)@,
                self.group_name@,
                str_views(self.text@),
                true,
                r,
            ),
            old(project)@.wf() ==> final(project)@.wf(),
    {
        add_entry(project, &self.group_name, &self.text, true)
    }
}

impl AddTaskArgs {
    /// Append a not-yet-completed task holding the space-joined text to
    /// the group.
    ///
    /// Fails with [`Error::NotFound`] for an unknown group and with
    /// [`Error::MissingArgument`] for empty text; a failed call leaves the
    /// store untouched.
    pub fn apply(&self, project: &mut Project) -> (r: Result<(), Error>)
        ensures
            add_outcome(
                old(project)@,
                final(project)@,
                self.group_name@,
                str_views(self.text@),
                false,
                r,
            ),
            old(project)@.wf() ==> final(project)@.wf(),
    {
        add_entry(project, &self.group_name, &self.text, false)
    }
}

} // verus!
