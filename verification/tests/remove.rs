use pmgr::commands::add::{AddNoteArgs, AddTaskArgs};
use pmgr::commands::create::CreateArgs;
use pmgr::commands::remove::{RemoveNoteArgs, RemoveTaskArgs};
use pmgr::data::{Group, Note, Project, Task, TaskState};

fn create(project: &mut Project, name: &str, parent: Option<&str>) {
    let args = CreateArgs {
        group_name: name.to_string(),
        parent_group: parent.map(|s| s.to_string()),
    };
    let _ = args.apply(project);
}

fn add_task(project: &mut Project, group: &str, text: &str) {
    let args = AddTaskArgs { group_name: group.to_string(), text: vec![text.to_string()] };
    let _ = args.apply(project);
}

fn add_note(project: &mut Project, group: &str, text: &str) {
    let args = AddNoteArgs { group_name: group.to_string(), text: vec![text.to_string()] };
    let _ = args.apply(project);
}

#[test]
fn simple_remove() {
    let mut project = Project::new();
    let mut group1 = Group::new("group1");
    let mut group2 = Group::new("group2");
    let mut group3 = Group::new("group3");
    group2.groups = vec!["group3".to_string()];
    for text in ["task1", "task3", "task5"] {
        group1.tasks.push(Task { task: text.to_string(), state: TaskState::Incomplete });
    }
    for text in ["note1", "note3", "note5"] {
        group3.notes.push(Note { note: text.to_string() });
    }
    project.groups.push(group1);
    project.groups.push(group2);
    project.groups.push(group3);

    let mut data = Project::new();
    create(&mut data, "group1", None);
    create(&mut data, "group2", None);
    create(&mut data, "group3", Some("group2"));

    for text in ["task1", "task2", "task3", "task4", "task5"] {
        add_task(&mut data, "group1", text);
    }
    for text in ["note1", "note2", "note3", "note4", "note5"] {
        add_note(&mut data, "group3", text);
    }

    let removed_tasks = RemoveTaskArgs { group_name: "group1".to_string(), ids: vec![2, 4] };
    let _ = removed_tasks.apply(&mut data);
    let removed_notes = RemoveNoteArgs { group_name: "group3".to_string(), ids: vec![2, 4] };
    let _ = removed_notes.apply(&mut data);

    assert_eq!(data.groups, project.groups);
}
