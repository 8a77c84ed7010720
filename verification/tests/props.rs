use pmgr::commands::create::CreateArgs;
use pmgr::commands::delete::DeleteArgs;
use pmgr::commands::remove::RemoveNoteArgs;
use pmgr::commands::select::SelectArgs;
use pmgr::commands::task::TaskCompleteArgs;
use pmgr::data::{Note, Project, Task, TaskState};
use pmgr::error::Error;

fn create(project: &mut Project, name: &str, parent: Option<&str>) {
    let args = CreateArgs {
        group_name: name.to_string(),
        parent_group: parent.map(|s| s.to_string()),
    };
    let r = args.apply(project);
    assert!(r.is_ok());
}

/// `g2 -> [g3, g4]`, `g4 -> [g5]`.
fn small_tree() -> Project {
    let mut data = Project::new();
    create(&mut data, "g2", None);
    create(&mut data, "g3", Some("g2"));
    create(&mut data, "g4", Some("g2"));
    create(&mut data, "g5", Some("g4"));
    data
}

#[test]
fn create_twice_fails_with_already_exists() {
    let mut data = Project::new();
    create(&mut data, "g", None);
    let before = data.groups.len();

    let again = CreateArgs { group_name: "g".to_string(), parent_group: None };
    let r = again.apply(&mut data);
    assert_eq!(r, Err(Error::AlreadyExists("g".to_string())));
    assert_eq!(data.groups.len(), before);
}

#[test]
fn descendants_preorder() {
    let data = small_tree();
    assert_eq!(data.get_group_descendants("g4").unwrap(), vec!["g5"]);
    assert_eq!(data.get_group_descendants("g2").unwrap(), vec!["g3", "g4", "g5"]);
}

#[test]
fn delete_cascades_and_cleans() {
    let mut data = small_tree();
    let args = DeleteArgs { group_names: vec!["g4".to_string()] };
    assert!(args.apply(&mut data).is_ok());

    let names: Vec<&str> = data.groups.iter().map(|g| g.name.as_str()).collect();
    assert_eq!(names, vec!["g2", "g3"]);
    assert_eq!(data.groups[0].groups, vec!["g3"]);
}

#[test]
fn delete_order_does_not_matter() {
    let mut first = small_tree();
    let mut second = small_tree();

    let args = DeleteArgs { group_names: vec!["g3".to_string(), "g4".to_string()] };
    assert!(args.apply(&mut first).is_ok());
    let args = DeleteArgs { group_names: vec!["g4".to_string(), "g3".to_string()] };
    assert!(args.apply(&mut second).is_ok());

    assert_eq!(first, second);
    let names: Vec<&str> = first.groups.iter().map(|g| g.name.as_str()).collect();
    assert_eq!(names, vec!["g2"]);
    assert_eq!(first.groups[0].groups.len(), 0);
}

#[test]
fn unwatch_all_empties_the_watch_set() {
    let mut data = small_tree();
    let select = SelectArgs { group_names: vec!["g2".to_string()] };
    assert!(select.apply(&mut data).is_ok());
    assert_eq!(data.active_groups.len(), 4);

    let args = pmgr::commands::unwatch::UnwatchArgs { group_names: vec![], all: true };
    assert!(args.apply(&mut data).is_ok());
    assert_eq!(data.active_groups.len(), 0);
}

#[test]
fn select_builds_sorted_union() {
    let mut data = Project::new();
    create(&mut data, "group1", None);
    create(&mut data, "group2", None);
    create(&mut data, "group3", Some("group2"));
    create(&mut data, "group4", Some("group2"));
    create(&mut data, "group5", Some("group4"));

    let first = SelectArgs { group_names: vec!["group4".to_string()] };
    assert!(first.apply(&mut data).is_ok());
    assert_eq!(data.active_groups, vec!["group4", "group5"]);

    let second = SelectArgs { group_names: vec!["group1".to_string(), "group2".to_string()] };
    assert!(second.apply(&mut data).is_ok());
    assert_eq!(
        data.active_groups,
        vec!["group1", "group2", "group3", "group4", "group5"]
    );
}

#[test]
fn select_sorts_by_code_point() {
    let mut data = Project::new();
    create(&mut data, "b", None);
    create(&mut data, "\u{e9}", None);
    create(&mut data, "a", None);

    let args = SelectArgs {
        group_names: vec!["b".to_string(), "\u{e9}".to_string(), "a".to_string()],
    };
    assert!(args.apply(&mut data).is_ok());
    assert_eq!(data.active_groups, vec!["a", "b", "\u{e9}"]);
}

#[test]
fn select_deduplicates_one_request() {
    let mut data = Project::new();
    create(&mut data, "g", None);

    let args = SelectArgs { group_names: vec!["g".to_string(), "g".to_string()] };
    assert!(args.apply(&mut data).is_ok());
    assert_eq!(data.active_groups, vec!["g"]);
}

#[test]
fn remove_notes_renumbers() {
    let mut data = Project::new();
    create(&mut data, "g", None);
    for text in ["one", "two", "three", "four", "five"] {
        data.groups[0].notes.push(Note { note: text.to_string() });
    }

    let args = RemoveNoteArgs { group_name: "g".to_string(), ids: vec![2, 4] };
    assert!(args.apply(&mut data).is_ok());

    let texts: Vec<&str> = data.groups[0].notes.iter().map(|n| n.note.as_str()).collect();
    assert_eq!(texts, vec!["one", "three", "five"]);
}

#[test]
fn complete_twice_is_idempotent() {
    let mut data = Project::new();
    create(&mut data, "g", None);
    data.groups[0].tasks.push(Task { task: "t".to_string(), state: TaskState::Complete });

    let args = TaskCompleteArgs { group_name: "g".to_string(), ids: vec![1] };
    assert!(args.apply(&mut data).is_ok());
    let after_first = data.clone();
    let args = TaskCompleteArgs { group_name: "g".to_string(), ids: vec![1] };
    assert!(args.apply(&mut data).is_ok());
    assert_eq!(data, after_first);
    assert_eq!(data.groups[0].tasks[0].state, TaskState::Complete);
}

#[test]
fn progress_percentage_values() {
    let mut data = Project::new();
    create(&mut data, "g", None);
    assert_eq!(data.groups[0].progress_percentage(), 0);

    for state in [
        TaskState::Complete,
        TaskState::Complete,
        TaskState::Complete,
        TaskState::Incomplete,
        TaskState::Incomplete,
    ] {
        data.groups[0].tasks.push(Task { task: "t".to_string(), state });
    }
    assert_eq!(data.groups[0].progress_percentage(), 60);
    assert_eq!(data.groups[0].finished_tasks().len(), 3);
    assert_eq!(data.groups[0].unfinished_tasks().len(), 2);
}
