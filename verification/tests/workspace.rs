use parmenides_lib::errors::{AddProjectError, MarkProjectAsAffectedError};
use parmenides_lib::project::{Project, ProjectId};
use parmenides_lib::workspace::Workspace;

fn project(path: &str, name: &str, dependencies: Option<Vec<ProjectId>>) -> Project {
    Project::new(path.to_owned(), name.to_owned(), dependencies)
}

fn affected(workspace: &Workspace) -> Vec<bool> {
    (0..workspace.len())
        .map(|i| workspace.get_project(ProjectId::new(i)).unwrap().affected)
        .collect()
}

#[test]
pub fn when_adding_project_should_add() {
    let path = "/home/test/project";
    let name = "test";

    let mut workspace = Workspace::new();

    let project_id = workspace
        .add_project(Project::new(path.to_owned(), name.to_owned(), None))
        .unwrap();

    let project = workspace.get_project(project_id).unwrap();

    assert_eq!(project.path, path);
    assert_eq!(project.name, name);
}

#[test]
pub fn when_adding_the_same_project_twice_should_return_error() {
    let path = "/home/test/project";
    let name = "test";

    let mut workspace = Workspace::new();

    let id = workspace
        .add_project(Project::new(path.to_owned(), name.to_owned(), None))
        .unwrap();

    let error = workspace
        .add_project(Project::new(path.to_owned(), name.to_owned(), None))
        .unwrap_err();

    assert_eq!(AddProjectError::PathAlreadyAdded(id), error);
}

#[test]
pub fn when_adding_project_dependent_should_update_dependents() {
    let mut workspace = Workspace::new();

    let core_id = workspace
        .add_project(Project::new(
            "/home/test/core".to_owned(),
            "core".to_owned(),
            None,
        ))
        .unwrap();

    let dependent_id = workspace
        .add_project(Project::new(
            "/home/test/dependent".to_owned(),
            "dependent".to_owned(),
            Some(vec![core_id]),
        ))
        .unwrap();

    let core = workspace.get_project(core_id).unwrap();

    assert!(!core.dependents.is_empty());
    assert_eq!(core.dependents, vec![dependent_id]);

    let dependent = workspace.get_project(dependent_id).unwrap();

    assert!(dependent.dependents.is_empty());
    assert!(dependent.dependencies.is_some());
    assert_eq!(dependent.dependencies, Some(vec![core_id]));
}

#[test]
pub fn when_dependency_doesnt_exist_should_return_error() {
    let path = "/home/test/project";
    let name = "test";

    let mut workspace = Workspace::new();

    let dependency_id = ProjectId::new(12);

    let error = workspace
        .add_project(Project::new(
            path.to_owned(),
            name.to_owned(),
            Some(vec![dependency_id]),
        ))
        .unwrap_err();

    assert_eq!(AddProjectError::DependencyNotFound(dependency_id), error);
}

#[test]
pub fn when_marking_project_as_affected_should_mark_dependents_too() {
    let mut workspace = Workspace::new();

    let core_id = workspace
        .add_project(Project::new(
            "/home/test/core".to_owned(),
            "core".to_owned(),
            None,
        ))
        .unwrap();

    let dependent_id = workspace
        .add_project(Project::new(
            "/home/test/dependent".to_owned(),
            "dependent".to_owned(),
            Some(vec![core_id]),
        ))
        .unwrap();

    workspace.mark_project_as_affected(core_id).unwrap();

    let core = workspace.get_project(core_id).unwrap();
    let dependent = workspace.get_project(dependent_id).unwrap();

    assert!(core.affected);
    assert!(dependent.affected);
}

#[test]
fn new_workspace_is_empty() {
    let workspace = Workspace::new();
    assert_eq!(workspace.len(), 0);
    assert!(workspace.is_empty());
    assert!(workspace.get_project(ProjectId::new(0)).is_none());
    assert!(workspace.get_id_by_path("/a").is_none());
    assert!(workspace.get_project_by_path("/a").is_none());
    let other = Workspace::default();
    assert!(other.is_empty());
}

#[test]
fn identifiers_are_positions_in_insertion_order() {
    let mut workspace = Workspace::new();
    let a = workspace.add_project(project("/a", "a", None)).unwrap();
    let b = workspace.add_project(project("/b", "b", Some(vec![]))).unwrap();
    let c = workspace.add_project(project("/c", "c", Some(vec![a, b]))).unwrap();
    assert_eq!(a, ProjectId::new(0));
    assert_eq!(b, ProjectId::new(1));
    assert_eq!(c, ProjectId::new(2));
    assert_eq!(a.into_inner(), 0);
    assert_eq!(c.into_inner(), 2);
    assert_eq!(workspace.len(), 3);
    assert!(!workspace.is_empty());
    assert_eq!(workspace.get_id_by_path("/b"), Some(b));
    assert_eq!(workspace.get_id_by_path("/d"), None);
    assert_eq!(workspace.get_project_by_path("/c").unwrap().name, "c");
    assert!(workspace.get_project_by_path("/d").is_none());
    assert!(workspace.get_project(ProjectId::new(3)).is_none());
}

#[test]
fn absent_and_empty_dependency_lists_are_kept_as_given() {
    let mut workspace = Workspace::new();
    let a = workspace.add_project(project("/a", "a", None)).unwrap();
    let b = workspace.add_project(project("/b", "b", Some(vec![]))).unwrap();
    assert_eq!(workspace.get_project(a).unwrap().dependencies, None);
    assert_eq!(workspace.get_project(b).unwrap().dependencies, Some(vec![]));
    assert!(workspace.get_project(a).unwrap().dependents.is_empty());
    assert!(workspace.get_project(b).unwrap().dependents.is_empty());
}

#[test]
fn second_project_at_a_path_is_refused_and_changes_nothing() {
    let mut workspace = Workspace::new();
    let a = workspace.add_project(project("/a", "a", None)).unwrap();
    let b = workspace.add_project(project("/b", "b", Some(vec![a]))).unwrap();

    let error = workspace
        .add_project(project("/a", "other", Some(vec![a, b])))
        .unwrap_err();

    assert_eq!(error, AddProjectError::PathAlreadyAdded(a));
    assert_eq!(workspace.len(), 2);
    assert_eq!(workspace.get_project(a).unwrap().name, "a");
    assert_eq!(workspace.get_project(a).unwrap().dependents, vec![b]);
    assert!(workspace.get_project(b).unwrap().dependents.is_empty());
    assert_eq!(workspace.get_id_by_path("/a"), Some(a));
}

#[test]
fn path_collision_is_reported_before_a_missing_dependency() {
    let mut workspace = Workspace::new();
    let a = workspace.add_project(project("/a", "a", None)).unwrap();
    let error = workspace
        .add_project(project("/a", "a", Some(vec![ProjectId::new(9)])))
        .unwrap_err();
    assert_eq!(error, AddProjectError::PathAlreadyAdded(a));
}

#[test]
fn missing_dependency_leaves_the_workspace_untouched() {
    let mut workspace = Workspace::new();
    let a = workspace.add_project(project("/a", "a", None)).unwrap();
    let b = workspace.add_project(project("/b", "b", None)).unwrap();

    let error = workspace
        .add_project(project(
            "/c",
            "c",
            Some(vec![a, ProjectId::new(7), b, ProjectId::new(5)]),
        ))
        .unwrap_err();

    assert_eq!(error, AddProjectError::DependencyNotFound(ProjectId::new(7)));
    assert_eq!(workspace.len(), 2);
    assert!(workspace.get_project(a).unwrap().dependents.is_empty());
    assert!(workspace.get_project(b).unwrap().dependents.is_empty());
    assert_eq!(workspace.get_id_by_path("/c"), None);

    let c = workspace.add_project(project("/c", "c", Some(vec![a]))).unwrap();
    assert_eq!(c, ProjectId::new(2));
    assert_eq!(workspace.get_project(a).unwrap().dependents, vec![c]);
}

#[test]
fn a_project_cannot_depend_on_itself_or_on_what_comes_later() {
    let mut workspace = Workspace::new();
    let error = workspace
        .add_project(project("/a", "a", Some(vec![ProjectId::new(0)])))
        .unwrap_err();
    assert_eq!(error, AddProjectError::DependencyNotFound(ProjectId::new(0)));
    assert!(workspace.is_empty());
}

#[test]
fn dependents_handed_in_are_not_kept() {
    let mut workspace = Workspace::new();
    let mut first = project("/a", "a", None);
    first.dependents.push(ProjectId::new(4));
    first.dependents.push(ProjectId::new(0));
    let a = workspace.add_project(first).unwrap();
    assert!(workspace.get_project(a).unwrap().dependents.is_empty());
}

#[test]
fn a_dependency_named_twice_records_the_dependent_twice() {
    let mut workspace = Workspace::new();
    let a = workspace.add_project(project("/a", "a", None)).unwrap();
    let b = workspace.add_project(project("/b", "b", Some(vec![a, a]))).unwrap();
    assert_eq!(workspace.get_project(a).unwrap().dependents, vec![b, b]);
    assert_eq!(workspace.get_project(b).unwrap().dependencies, Some(vec![a, a]));
}

#[test]
fn dependents_are_the_transpose_of_dependencies() {
    let mut workspace = Workspace::new();
    let a = workspace.add_project(project("/a", "a", None)).unwrap();
    let b = workspace.add_project(project("/b", "b", Some(vec![a]))).unwrap();
    let c = workspace.add_project(project("/c", "c", Some(vec![a]))).unwrap();
    let d = workspace.add_project(project("/d", "d", Some(vec![b, c]))).unwrap();
    let e = workspace.add_project(project("/e", "e", None)).unwrap();
    let ids = [a, b, c, d, e];

    for p in ids {
        for q in ids {
            let listed = workspace.get_project(p).unwrap().dependents.contains(&q);
            let depends = match &workspace.get_project(q).unwrap().dependencies {
                Some(dependencies) => dependencies.contains(&p),
                None => false,
            };
            assert_eq!(listed, depends);
        }
    }
    for p in ids {
        let found = workspace.get_project(p).unwrap();
        for q in &found.dependents {
            assert!(workspace.get_project(*q).is_some());
        }
        if let Some(dependencies) = &found.dependencies {
            for q in dependencies {
                assert!(workspace.get_project(*q).is_some());
            }
        }
    }
    assert_eq!(workspace.get_project(a).unwrap().dependents, vec![b, c]);
    assert_eq!(workspace.get_project(b).unwrap().dependents, vec![d]);
    assert_eq!(workspace.get_project(c).unwrap().dependents, vec![d]);
}

#[test]
fn marking_reaches_exactly_the_project_and_what_depends_on_it() {
    let mut workspace = Workspace::new();
    let a = workspace.add_project(project("/a", "a", None)).unwrap();
    let b = workspace.add_project(project("/b", "b", Some(vec![a]))).unwrap();
    let c = workspace.add_project(project("/c", "c", Some(vec![a]))).unwrap();
    let _d = workspace.add_project(project("/d", "d", Some(vec![b, c]))).unwrap();
    let _e = workspace.add_project(project("/e", "e", None)).unwrap();
    let _f = workspace.add_project(project("/f", "f", Some(vec![c]))).unwrap();

    assert_eq!(affected(&workspace), vec![false; 6]);
    assert_eq!(workspace.mark_project_as_affected(b), Ok(()));
    assert_eq!(
        affected(&workspace),
        vec![false, true, false, true, false, false]
    );
    assert_eq!(workspace.mark_project_as_affected(c), Ok(()));
    assert_eq!(
        affected(&workspace),
        vec![false, true, true, true, false, true]
    );
}

#[test]
fn marking_a_leaf_marks_only_the_leaf() {
    let mut workspace = Workspace::new();
    let a = workspace.add_project(project("/a", "a", None)).unwrap();
    let b = workspace.add_project(project("/b", "b", Some(vec![a]))).unwrap();
    workspace.mark_project_as_affected(b).unwrap();
    assert_eq!(affected(&workspace), vec![false, true]);
}

#[test]
fn marking_twice_is_marking_once() {
    let mut workspace = Workspace::new();
    let a = workspace.add_project(project("/a", "a", None)).unwrap();
    let b = workspace.add_project(project("/b", "b", Some(vec![a]))).unwrap();
    let _c = workspace.add_project(project("/c", "c", Some(vec![b]))).unwrap();
    let _d = workspace.add_project(project("/d", "d", None)).unwrap();

    workspace.mark_project_as_affected(a).unwrap();
    let once = affected(&workspace);
    workspace.mark_project_as_affected(a).unwrap();
    assert_eq!(affected(&workspace), once);
    assert_eq!(once, vec![true, true, true, false]);
}

#[test]
fn marking_passes_over_a_project_that_is_already_affected() {
    let mut workspace = Workspace::new();
    let a = workspace.add_project(project("/a", "a", None)).unwrap();
    workspace.mark_project_as_affected(a).unwrap();
    let b = workspace.add_project(project("/b", "b", Some(vec![a]))).unwrap();
    assert!(!workspace.get_project(b).unwrap().affected);

    workspace.mark_project_as_affected(a).unwrap();
    assert_eq!(affected(&workspace), vec![true, false]);

    workspace.mark_project_as_affected(b).unwrap();
    assert_eq!(affected(&workspace), vec![true, true]);
}

#[test]
fn marking_an_unknown_project_fails_and_marks_nothing() {
    let mut workspace = Workspace::new();
    let _a = workspace.add_project(project("/a", "a", None)).unwrap();
    let error = workspace
        .mark_project_as_affected(ProjectId::new(1))
        .unwrap_err();
    assert_eq!(
        error,
        MarkProjectAsAffectedError::ProjectNotFound(ProjectId::new(1))
    );
    assert_eq!(affected(&workspace), vec![false]);

    let mut empty = Workspace::new();
    assert_eq!(
        empty.mark_project_as_affected(ProjectId::new(0)),
        Err(MarkProjectAsAffectedError::ProjectNotFound(ProjectId::new(
            0
        )))
    );
}

#[test]
fn marking_survives_a_long_chain() {
    let mut workspace = Workspace::new();
    let mut previous = workspace.add_project(project("/0", "0", None)).unwrap();
    for i in 1..2000 {
        previous = workspace
            .add_project(project(&format!("/{}", i), "n", Some(vec![previous])))
            .unwrap();
    }
    workspace.mark_project_as_affected(ProjectId::new(1000)).unwrap();
    let flags = affected(&workspace);
    for (i, flag) in flags.iter().enumerate() {
        assert_eq!(*flag, i >= 1000);
    }
}

#[test]
fn display_forms() {
    assert_eq!(ProjectId::new(12).to_string(), "12");
    assert_eq!(ProjectId::new(0).to_string(), "0");
    let core = project("/home/test/core", "core", None);
    assert_eq!(core.to_string(), "Project core \"/home/test/core\"");
    let odd = project("a\"b", "x y", None);
    assert_eq!(odd.to_string(), "Project x y \"a\\\"b\"");
}

#[test]
fn identifiers_compare_by_position() {
    assert!(ProjectId::new(1) < ProjectId::new(2));
    assert_eq!(ProjectId::new(3), ProjectId::new(3));
    assert_ne!(ProjectId::new(3), ProjectId::new(4));
    let id = ProjectId::new(5);
    let copy = id;
    assert_eq!(id, copy);
}

#[test]
fn display_of_identifiers_is_decimal() {
    assert_eq!(ProjectId::new(7).to_string(), "7");
    assert_eq!(ProjectId::new(10).to_string(), "10");
    assert_eq!(ProjectId::new(4096).to_string(), "4096");
    assert_eq!(ProjectId::new(usize::MAX).to_string(), format!("{}", usize::MAX));
}

#[test]
fn dependents_are_recorded_in_the_order_of_their_identifiers() {
    let mut workspace = Workspace::new();
    let a = workspace.add_project(project("/a", "a", None)).unwrap();
    let b = workspace.add_project(project("/b", "b", Some(vec![a, a]))).unwrap();
    let c = workspace.add_project(project("/c", "c", Some(vec![b, a]))).unwrap();
    let d = workspace.add_project(project("/d", "d", Some(vec![a, c, a, a]))).unwrap();
    assert_eq!(
        workspace.get_project(a).unwrap().dependents,
        vec![b, b, c, d, d, d]
    );
    assert_eq!(workspace.get_project(b).unwrap().dependents, vec![c]);
    assert_eq!(workspace.get_project(c).unwrap().dependents, vec![d]);
    assert!(workspace.get_project(d).unwrap().dependents.is_empty());
}
