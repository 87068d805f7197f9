use atelier::{
    is_ignored, sort_entries, AppPaths, Project, ProjectEntry, ProjectEntryKind, ProjectRegistry, RecentProject,
    PROJECT_METADATA_DIR,
};

fn entry(name: &str, kind: ProjectEntryKind) -> ProjectEntry {
    match kind {
        ProjectEntryKind::File => ProjectEntry::file(format!("/p/{name}")).unwrap(),
        ProjectEntryKind::Directory => ProjectEntry::directory(format!("/p/{name}"), Vec::new()).unwrap(),
    }
}

#[test]
fn lists_directories_first_then_names_ignoring_case() {
    let sorted = sort_entries(vec![
        entry("README.md", ProjectEntryKind::File),
        entry("alpha.txt", ProjectEntryKind::File),
        entry("src", ProjectEntryKind::Directory),
    ]);
    let names: Vec<&str> = sorted.iter().map(ProjectEntry::name).collect();
    assert_eq!(names, ["src", "alpha.txt", "README.md"]);
    assert_eq!(sorted[0].kind(), ProjectEntryKind::Directory);
}

#[test]
fn breaks_ties_of_case_by_the_exact_name() {
    let sorted = sort_entries(vec![entry("b", ProjectEntryKind::File), entry("B", ProjectEntryKind::File)]);
    let names: Vec<&str> = sorted.iter().map(ProjectEntry::name).collect();
    assert_eq!(names, ["B", "b"]);
}

#[test]
fn omits_repository_build_and_metadata_directories() {
    assert!(is_ignored(".git"));
    assert!(is_ignored("target"));
    assert!(is_ignored(PROJECT_METADATA_DIR));
    assert!(!is_ignored("visible.txt"));
    assert!(!is_ignored(".gitignore"));
}

#[test]
fn projects_keep_their_root_and_tree() {
    let child = ProjectEntry::file("/p/src/main.rs".to_string()).unwrap();
    let src = ProjectEntry::directory("/p/src".to_string(), vec![child]).unwrap();
    let project = Project::new("/p".to_string(), vec![src]).unwrap();
    assert_eq!(project.root(), "/p");
    assert_eq!(project.entries()[0].children()[0].name(), "main.rs");
    assert_eq!(project.entries()[0].path(), "/p/src");
}

#[test]
fn records_deduplicate_and_cap_recent_projects() {
    let mut registry = ProjectRegistry::empty();
    assert!(registry.projects().is_empty());
    registry.record("/p/first".to_string(), "first".to_string(), 1);
    registry.record("/p/second".to_string(), "second".to_string(), 2);
    let recorded = registry.record("/p/first".to_string(), "first".to_string(), 3);
    assert_eq!(recorded.opened_at, 3);

    assert_eq!(registry.projects().len(), 2);
    assert_eq!(registry.projects()[0].path, "/p/first");
    assert_eq!(registry.projects()[0].name, "first");
    assert_eq!(registry.projects()[1].path, "/p/second");

    for index in 0..20 {
        registry.record(format!("/p/project-{index}"), format!("project-{index}"), 10 + index);
    }
    assert_eq!(registry.projects().len(), 20);
    assert_eq!(registry.projects()[0].name, "project-19");
}

#[test]
fn remove_drops_a_project_by_either_path() {
    let mut registry = ProjectRegistry::from_projects(vec![RecentProject {
        path: "/real/gone".to_string(),
        name: "gone".to_string(),
        opened_at: 5,
    }]);
    assert!(registry.remove("/real/gone", "/link/gone"));
    assert!(registry.projects().is_empty());
    assert!(!registry.remove("/real/gone", "/link/gone"));
}

#[test]
fn keeps_the_application_directories() {
    let paths = AppPaths::from_dirs("/c", "/d", "/k");
    assert_eq!(paths.config_dir(), "/c");
    assert_eq!(paths.data_dir(), "/d");
    assert_eq!(paths.cache_dir(), "/k");
    assert_eq!(paths.projects_file(), "/d/projects.toml");
    assert_eq!(AppPaths::from_dirs("/c", "/d/", "/k").projects_file(), "/d/projects.toml");
}

#[test]
fn entries_take_their_names_from_their_paths() {
    let file = ProjectEntry::file("/p/src/lib.rs".to_string()).unwrap();
    assert_eq!(file.name(), "lib.rs");
    assert_eq!(file.kind(), ProjectEntryKind::File);
    assert!(file.children().is_empty());
    assert!(ProjectEntry::file("/p/..".to_string()).is_none());
    assert!(ProjectEntry::directory("/".to_string(), Vec::new()).is_none());
}

#[test]
fn directories_list_their_shown_contents_in_order() {
    let contents = vec![
        ProjectEntry::file("/p/README.md".to_string()).unwrap(),
        ProjectEntry::directory("/p/.git".to_string(), Vec::new()).unwrap(),
        ProjectEntry::file("/p/alpha.txt".to_string()).unwrap(),
        ProjectEntry::directory("/p/src".to_string(), Vec::new()).unwrap(),
        ProjectEntry::directory("/p/target".to_string(), Vec::new()).unwrap(),
    ];
    let project = Project::new("/p".to_string(), contents).unwrap();
    let names: Vec<&str> = project.entries().iter().map(ProjectEntry::name).collect();
    assert_eq!(names, ["src", "alpha.txt", "README.md"]);
}

#[test]
fn contents_must_sit_directly_in_their_directory() {
    let stray = ProjectEntry::file("/elsewhere/notes.txt".to_string()).unwrap();
    assert!(Project::new("/p".to_string(), vec![stray]).is_none());
    let nested = ProjectEntry::file("/p/src/main.rs".to_string()).unwrap();
    assert!(ProjectEntry::directory("/p/docs".to_string(), vec![nested]).is_none());
}
