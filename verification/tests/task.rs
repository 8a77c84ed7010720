use pmgr::commands::add::AddTaskArgs;
use pmgr::commands::create::CreateArgs;
use pmgr::commands::task::{TaskCompleteArgs, TaskUndoArgs};
use pmgr::data::{Group, Project, Task, TaskState};

fn create(project: &mut Project, name: &str, parent: Option<&str>) {
    let args = CreateArgs {
        group_name: name.to_string(),
        parent_group: parent.map(|s| s.to_string()),
    };
    let _ = args.apply(project);
}

fn add_task(project: &mut Project, group: &str, text: &str) {
    let args = AddTaskArgs { group_name: group.to_string(), text: vec![text.to_string()] };
    let _ = args.apply(project);
}

fn filled_store() -> Project {
    let mut data = Project::new();
    create(&mut data, "group1", None);
    create(&mut data, "group2", None);
    create(&mut data, "group3", Some("group2"));
    for text in ["task1", "task2", "task3", "task4", "task5"] {
        add_task(&mut data, "group3", text);
    }
    data
}

fn expected_store(states: [TaskState; 5]) -> Project {
    let mut project = Project::new();
    let group1 = Group::new("group1");
    let mut group2 = Group::new("group2");
    let mut group3 = Group::new("group3");
    group2.groups = vec!["group3".to_string()];
    let texts = ["task1", "task2", "task3", "task4", "task5"];
    for (text, state) in texts.iter().zip(states) {
        group3.tasks.push(Task { task: text.to_string(), state });
    }
    project.groups.push(group1);
    project.groups.push(group2);
    project.groups.push(group3);
    project
}

#[test]
fn task_complete() {
    let mut data = filled_store();
    let complete = TaskCompleteArgs { group_name: "group3".to_string(), ids: vec![1, 3, 5] };
    let _ = complete.apply(&mut data);

    let project = expected_store([
        TaskState::Complete,
        TaskState::Incomplete,
        TaskState::Complete,
        TaskState::Incomplete,
        TaskState::Complete,
    ]);
    assert_eq!(data.groups, project.groups);
}

#[test]
fn task_undo() {
    let mut data = filled_store();
    let complete = TaskCompleteArgs { group_name: "group3".to_string(), ids: vec![1, 3, 5] };
    let _ = complete.apply(&mut data);
    let undo = TaskUndoArgs { group_name: "group3".to_string(), ids: vec![1, 3, 5] };
    let _ = undo.apply(&mut data);

    let project = expected_store([
        TaskState::Incomplete,
        TaskState::Incomplete,
        TaskState::Incomplete,
        TaskState::Incomplete,
        TaskState::Incomplete,
    ]);
    assert_eq!(data.groups, project.groups);
}
