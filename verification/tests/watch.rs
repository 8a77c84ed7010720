use pmgr::commands::create::CreateArgs;
use pmgr::commands::unwatch::UnwatchArgs;
use pmgr::commands::watch::WatchArgs;
use pmgr::data::Project;

fn create(project: &mut Project, name: &str, parent: Option<&str>) {
    let args = CreateArgs {
        group_name: name.to_string(),
        parent_group: parent.map(|s| s.to_string()),
    };
    let _ = args.apply(project);
}

fn watch(project: &mut Project, names: &[&str]) {
    for name in names {
        let args = WatchArgs { group_names: vec![name.to_string()] };
        let _ = args.apply(project);
    }
}

fn unwatch(project: &mut Project, names: &[&str]) {
    for name in names {
        let args = UnwatchArgs { group_names: vec![name.to_string()], all: false };
        let _ = args.apply(project);
    }
}

fn tree(project: &mut Project) {
    create(project, "group1", None);
    create(project, "group2", None);
    create(project, "group3", Some("group2"));
    create(project, "group4", Some("group2"));
    create(project, "group5", Some("group4"));
}

#[test]
fn simple_select() {
    let mut data = Project::new();
    tree(&mut data);

    watch(&mut data, &["group4"]);
    assert_eq!(data.active_groups, vec!["group4", "group5"]);

    watch(&mut data, &["group1", "group2"]);
    assert_eq!(
        data.active_groups,
        vec!["group1", "group2", "group3", "group4", "group5"]
    );
}

#[test]
fn simple_deselect() {
    let mut data = Project::new();
    tree(&mut data);

    watch(&mut data, &["group2"]);
    unwatch(&mut data, &["group5"]);
    assert_eq!(data.active_groups, vec!["group2", "group3", "group4"]);

    unwatch(&mut data, &["group2"]);
    assert_eq!(data.active_groups.len(), 0);
}
