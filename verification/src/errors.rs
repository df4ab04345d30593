use vstd::prelude::*;
use crate::project::ProjectId;

verus! {

/// Why a project could not be added to a workspace.
#[derive(Debug, PartialEq)]
pub enum AddProjectError {
    /// A project with the same path is already in the workspace, under the given identifier.
    PathAlreadyAdded(ProjectId),
    /// The given dependency identifier denotes no project of the workspace.
    DependencyNotFound(ProjectId),
}

/// Why a project could not be marked as affected.
#[derive(Debug, PartialEq)]
pub enum MarkProjectAsAffectedError {
    /// The given identifier denotes no project of the workspace.
    ProjectNotFound(ProjectId),
}

/// Why a workspace could not be built from its declaration.
#[derive(Debug, PartialEq)]
pub enum BuildWorkspaceError {
    /// Adding the project declared at the given path failed.
    ErrorWhileAddingProject(String, AddProjectError),
    /// The given path is named as a dependency but has no declaration.
    ProjectDeclarationNotFound(String),
    /// The declarations depend on each other in a circle; the chain of paths runs from
    /// the path at which resolution started to the path that was met a second time.
    CyclicDependencyFound(Vec<String>),
}

} // verus!
