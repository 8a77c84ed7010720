use pmgr::commands::create::CreateArgs;
use pmgr::data::{Group, Project};

fn create(project: &mut Project, name: &str, parent: Option<&str>) {
    let args = CreateArgs {
        group_name: name.to_string(),
        parent_group: parent.map(|s| s.to_string()),
    };
    let _ = args.apply(project);
}

#[test]
fn simple_create() {
    let mut project = Project::new();
    project.groups.push(Group::new("group1"));
    project.groups.push(Group::new("group2"));
    project.groups.push(Group::new("group3"));

    let mut data = Project::new();
    create(&mut data, "group1", None);
    create(&mut data, "group2", None);
    create(&mut data, "group3", None);
    // should not create duplicates
    create(&mut data, "group3", None);

    assert_eq!(data, project);
}

#[test]
fn create_with_parent() {
    let mut project = Project::new();
    let group1 = Group::new("group1");
    let mut group2 = Group::new("group2");
    let group3 = Group::new("group3");
    let mut group4 = Group::new("group4");
    let group5 = Group::new("group5");

    group2.groups.push("group3".to_string());
    group2.groups.push("group4".to_string());
    group4.groups.push("group5".to_string());

    project.groups.push(group1);
    project.groups.push(group2);
    project.groups.push(group3);
    project.groups.push(group4);
    project.groups.push(group5);

    let mut data = Project::new();
    create(&mut data, "group1", None);
    create(&mut data, "group2", None);
    create(&mut data, "group3", Some("group2"));
    create(&mut data, "group4", Some("group2"));
    create(&mut data, "group4", None);
    create(&mut data, "group5", Some("group4"));

    assert_eq!(data, project);
}
