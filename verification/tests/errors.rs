use pmgr::commands::add::AddNoteArgs;
use pmgr::commands::create::CreateArgs;
use pmgr::commands::delete::DeleteArgs;
use pmgr::commands::deselect::DeselectArgs;
use pmgr::commands::list::ListArgs;
use pmgr::commands::remove::RemoveTaskArgs;
use pmgr::commands::set::{SetDescArgs, SetRepoArgs, SetTitleArgs};
use pmgr::commands::task::TaskProgressArgs;
use pmgr::commands::unwatch::UnwatchArgs;
use pmgr::commands::watch::WatchArgs;
use pmgr::data::{Group, Project, Task, TaskState};
use pmgr::error::Error;

fn create(project: &mut Project, name: &str, parent: Option<&str>) {
    let args = CreateArgs {
        group_name: name.to_string(),
        parent_group: parent.map(|s| s.to_string()),
    };
    assert!(args.apply(project).is_ok());
}

#[test]
fn create_with_unknown_parent_fails() {
    let mut data = Project::new();
    let args = CreateArgs {
        group_name: "child".to_string(),
        parent_group: Some("ghost".to_string()),
    };
    let before = data.clone();
    assert_eq!(args.apply(&mut data), Err(Error::NotFound("ghost".to_string())));
    assert_eq!(data, before);
}

#[test]
fn delete_unknown_leaves_store_unchanged() {
    let mut data = Project::new();
    create(&mut data, "g1", None);
    let before = data.clone();

    let args = DeleteArgs { group_names: vec!["g1".to_string(), "nope".to_string()] };
    assert_eq!(args.apply(&mut data), Err(Error::InvalidValue(vec!["nope".to_string()])));
    assert_eq!(data, before);
}

#[test]
fn delete_empty_request_is_missing_argument() {
    let mut data = Project::new();
    let args = DeleteArgs { group_names: vec![] };
    assert_eq!(args.apply(&mut data), Err(Error::MissingArgument));
}

#[test]
fn remove_out_of_range_ids_reported_together() {
    let mut data = Project::new();
    create(&mut data, "g", None);
    for _ in 0..3 {
        data.groups[0].tasks.push(Task { task: "t".to_string(), state: TaskState::Incomplete });
    }
    let before = data.clone();

    let args = RemoveTaskArgs { group_name: "g".to_string(), ids: vec![0, 2, 7] };
    assert_eq!(args.apply(&mut data), Err(Error::InvalidIds(vec![0, 7])));
    assert_eq!(data, before);
}

#[test]
fn add_note_requires_text() {
    let mut data = Project::new();
    create(&mut data, "g", None);
    let before = data.clone();

    let args = AddNoteArgs { group_name: "g".to_string(), text: vec![] };
    assert_eq!(args.apply(&mut data), Err(Error::MissingArgument));
    assert_eq!(data, before);
}

#[test]
fn add_note_joins_words() {
    let mut data = Project::new();
    create(&mut data, "g", None);
    let args = AddNoteArgs {
        group_name: "g".to_string(),
        text: vec!["hello".to_string(), "there".to_string(), "world".to_string()],
    };
    assert!(args.apply(&mut data).is_ok());
    assert_eq!(data.groups[0].notes[0].note, "hello there world");
}

#[test]
fn watch_reports_all_violations_together() {
    let mut data = Project::new();
    create(&mut data, "g1", None);
    create(&mut data, "g2", None);
    let watch = WatchArgs { group_names: vec!["g1".to_string()] };
    assert!(watch.apply(&mut data).is_ok());
    let before = data.clone();

    let watch = WatchArgs {
        group_names: vec!["g1".to_string(), "ghost".to_string(), "g2".to_string()],
    };
    assert_eq!(
        watch.apply(&mut data),
        Err(Error::ValueValidation {
            not_created: vec!["ghost".to_string()],
            invalid_state: vec!["g1".to_string()],
        })
    );
    assert_eq!(data, before);
}

#[test]
fn deselect_not_active_fails_unchanged() {
    let mut data = Project::new();
    create(&mut data, "g1", None);
    let before = data.clone();

    let args = DeselectArgs { group_names: vec!["g1".to_string()] };
    assert_eq!(
        args.apply(&mut data),
        Err(Error::ValueValidation { not_created: vec![], invalid_state: vec!["g1".to_string()] })
    );
    assert_eq!(data, before);
}

#[test]
fn unwatch_all_with_nothing_watched() {
    let mut data = Project::new();
    create(&mut data, "g1", None);
    let args = UnwatchArgs { group_names: vec![], all: true };
    assert_eq!(args.apply(&mut data), Err(Error::IoError));
}

#[test]
fn cyclic_children_detected() {
    let mut data = Project::new();
    let mut g1 = Group::new("g1");
    let mut g2 = Group::new("g2");
    g1.groups.push("g2".to_string());
    g2.groups.push("g1".to_string());
    data.groups.push(g1);
    data.groups.push(g2);

    assert_eq!(data.get_group_descendants("g1"), Err(Error::CycleDetected));
}

#[test]
fn dangling_child_reported_as_not_found() {
    let mut data = Project::new();
    let mut g1 = Group::new("g1");
    g1.groups.push("ghost".to_string());
    data.groups.push(g1);

    assert_eq!(
        data.get_group_descendants("g1"),
        Err(Error::NotFound("ghost".to_string()))
    );
    assert_eq!(
        data.get_group_descendants("missing"),
        Err(Error::NotFound("missing".to_string()))
    );

    // the cleanup pass repairs the dangling reference
    data.clean();
    assert_eq!(data.groups[0].groups.len(), 0);
    assert_eq!(data.get_group_descendants("g1"), Ok(vec![]));
}

#[test]
fn set_repo_validates_url() {
    let mut data = Project::new();
    let bad = SetRepoArgs { repo: "not a url".to_string() };
    assert_eq!(
        bad.apply(&mut data),
        Err(Error::InvalidValue(vec!["not a url".to_string()]))
    );
    assert_eq!(data.information.repo, None);

    let good = SetRepoArgs { repo: "https://example.com/store.git".to_string() };
    assert!(good.apply(&mut data).is_ok());
    assert_eq!(data.information.repo, Some("https://example.com/store.git".to_string()));
}

#[test]
fn set_title_and_description() {
    let mut data = Project::new();
    let title = SetTitleArgs { title: "my plans".to_string() };
    title.apply(&mut data);
    assert_eq!(data.information.title, Some("my plans".to_string()));

    let empty = SetDescArgs { desc: vec![] };
    assert_eq!(empty.apply(&mut data), Err(Error::MissingArgument));

    let desc = SetDescArgs { desc: vec!["a".to_string(), "plan".to_string()] };
    assert!(desc.apply(&mut data).is_ok());
    assert_eq!(data.information.description, Some("a plan".to_string()));
}

#[test]
fn list_selects_the_right_groups() {
    let mut data = Project::new();
    let none = ListArgs { group_name: None, all: true };
    assert_eq!(none.apply(&data), Err(Error::IoError));

    create(&mut data, "g1", None);
    create(&mut data, "g2", Some("g1"));
    create(&mut data, "g3", None);

    let subtree = ListArgs { group_name: Some("g1".to_string()), all: false };
    let groups = subtree.apply(&data).unwrap();
    let names: Vec<&str> = groups.iter().map(|g| g.name.as_str()).collect();
    assert_eq!(names, vec!["g1", "g2"]);

    let unknown = ListArgs { group_name: Some("nope".to_string()), all: false };
    assert_eq!(unknown.apply(&data), Err(Error::InvalidValue(vec!["nope".to_string()])));

    let unwatched = ListArgs { group_name: None, all: false };
    assert_eq!(unwatched.apply(&data), Err(Error::IoError));

    let all = ListArgs { group_name: None, all: true };
    let groups = all.apply(&data).unwrap();
    assert_eq!(groups.len(), 3);
}

#[test]
fn progress_selects_the_right_groups() {
    let mut data = Project::new();
    create(&mut data, "g1", None);
    create(&mut data, "g2", Some("g1"));

    let all = TaskProgressArgs { group_name: None, all: true };
    assert_eq!(all.apply(&data).unwrap().len(), 2);

    let named = TaskProgressArgs { group_name: Some("g1".to_string()), all: false };
    let groups = named.apply(&data).unwrap();
    let names: Vec<&str> = groups.iter().map(|g| g.name.as_str()).collect();
    assert_eq!(names, vec!["g1", "g2"]);

    let nothing_watched = TaskProgressArgs { group_name: None, all: false };
    assert_eq!(nothing_watched.apply(&data), Err(Error::IoError));

    let watch = WatchArgs { group_names: vec!["g2".to_string()] };
    assert!(watch.apply(&mut data).is_ok());
    let watched = TaskProgressArgs { group_name: None, all: false };
    let groups = watched.apply(&data).unwrap();
    let names: Vec<&str> = groups.iter().map(|g| g.name.as_str()).collect();
    assert_eq!(names, vec!["g2"]);
}
