use pmgr::commands::create::CreateArgs;
use pmgr::commands::delete::DeleteArgs;
use pmgr::data::{Group, Project};

fn create(project: &mut Project, name: &str, parent: Option<&str>) {
    let args = CreateArgs {
        group_name: name.to_string(),
        parent_group: parent.map(|s| s.to_string()),
    };
    let _ = args.apply(project);
}

fn delete(project: &mut Project, names: &[&str]) {
    let args = DeleteArgs { group_names: names.iter().map(|s| s.to_string()).collect() };
    let _ = args.apply(project);
}

#[test]
fn simple_delete() {
    let mut data = Project::new();
    create(&mut data, "group1", None);
    create(&mut data, "group2", None);
    create(&mut data, "group3", Some("group2"));
    create(&mut data, "group4", Some("group2"));
    create(&mut data, "group5", Some("group4"));

    delete(&mut data, &["group4"]);

    let mut project = Project::new();
    let group1 = Group::new("group1");
    let mut group2 = Group::new("group2");
    let group3 = Group::new("group3");
    group2.groups = vec!["group3".to_string()];
    project.groups.push(group1);
    project.groups.push(group2);
    project.groups.push(group3);

    assert_eq!(data.groups, project.groups);

    delete(&mut data, &["group2"]);

    let mut project = Project::new();
    project.groups.push(Group::new("group1"));

    assert_eq!(data.groups, project.groups);
}
